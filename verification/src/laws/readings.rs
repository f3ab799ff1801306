//! What a workflow reads along a pass: time, random numbers, and whether it is
//! replaying.

use vstd::prelude::*;

use crate::coroutine::{Coroutine, Observe, Poll, Workflow};
use crate::history::{commands_of, seed_of, HistoryEventView, Payload, RecordedResultView, SeqNo};
use crate::laws::faithfulness::{grows, lemma_grows_trans, orderly_workflow};
use crate::laws::passes::lemma_first_rest;
use crate::laws::recovery::{lemma_deliveries_grow, lemma_rest_grows, lemma_round_grows};
use crate::replay::{deliveries, pass_runs, round, run_to_block, PassState};
use crate::text::Text;
use crate::workflow::{
    fresh_ctx, latest, nth_random, rng_after, ActivityFailure, ActivityFuture, CtxView,
    TimerFuture,
};

verus! {

/// An orderly workflow keeps to the rules all along a pass: from its start to any
/// later round, and across every delivery, the context only grows.
pub proof fn law_a_pass_only_grows<
    T: Coroutine<T, ()>,
    R: Coroutine<T, Result<Payload, String>>,
    W: Workflow<T, R>,
>(
    wf: W,
    h: Seq<HistoryEventView>,
    s: PassState<R::Obs, T::Obs>,
    results: Seq<RecordedResultView>,
    m: PassState<R::Obs, T::Obs>,
    ok: bool,
    e: PassState<R::Obs, T::Obs>,
)
    requires
        orderly_workflow::<T, R, W>(wf),
    ensures
        wf.started(fresh_ctx::<T::Obs>(h), s.root, s.ctx) ==> grows(fresh_ctx(h), s.ctx),
        round::<T, R>(m, e) ==> grows(m.ctx, e.ctx),
        run_to_block::<T, R>(m, e, ok) ==> grows(m.ctx, e.ctx),
        deliveries::<T, R>(results, m, e, ok) ==> grows(m.ctx, e.ctx),
        pass_runs::<T, R>(results, m, e, !ok) ==> grows(m.ctx, e.ctx),
{
    if round::<T, R>(m, e) {
        lemma_round_grows::<T, R>(m, e);
    }
    if run_to_block::<T, R>(m, e, ok) {
        lemma_rest_grows::<T, R>(m, e, ok);
    }
    if deliveries::<T, R>(results, m, e, ok) {
        lemma_deliveries_grow::<T, R>(results, m, e, ok);
    }
    if pass_runs::<T, R>(results, m, e, !ok) {
        let (k, blocked) = lemma_first_rest::<T, R>(results, m, e, !ok);
        lemma_rest_grows::<T, R>(m, k, blocked);
        if blocked {
            lemma_deliveries_grow::<T, R>(results, k, e, ok);
            lemma_grows_trans(m.ctx, k.ctx, e.ctx);
        }
    }
}

proof fn lemma_latest(a: Seq<(SeqNo, u64)>, b: Seq<(SeqNo, u64)>)
    ensures
        latest(a + b) == if latest(b) > latest(a) {
            latest(b)
        } else {
            latest(a)
        },
    decreases b.len(),
{
    if b.len() == 0 {
        assert(a + b =~= a);
    } else {
        assert((a + b).drop_last() =~= a + b.drop_last());
        lemma_latest(a, b.drop_last());
    }
}

/// Workflow time never goes back: of two readings in a pass, the later one is the
/// larger of the earlier one and the times of the results observed in between.
/// Without an observation in between they are the same.
pub proof fn law_the_later_reading_is_the_larger<T>(a: CtxView<T>, b: CtxView<T>)
    requires
        grows(a, b),
    ensures
        ({
            let between = latest(b.observed.skip(a.observed.len() as int));
            b.now_ms() == if between > a.now_ms() {
                between
            } else {
                a.now_ms()
            }
        }),
        a.now_ms() <= b.now_ms(),
        b.observed.len() == a.observed.len() ==> a.now_ms() == b.now_ms(),
{
    let n = a.observed.len() as int;
    assert(b.observed =~= a.observed + b.observed.skip(n)) by {
        assert(a.observed =~= b.observed.subrange(0, n));
    }
    lemma_latest(a.observed, b.observed.skip(n));
}

/// Workflow time is that of a result which the workflow has observed: no observed
/// result is later, and one of them is of that very time, unless nothing was observed
/// or everything at time zero.
pub proof fn law_time_is_that_of_an_observed_result<T>(ctx: CtxView<T>)
    ensures
        forall|i: int|
            0 <= i < ctx.observed.len() ==> (#[trigger] ctx.observed[i]).1 <= ctx.now_ms(),
        ctx.now_ms() == 0 || exists|i: int|
            0 <= i < ctx.observed.len() && (#[trigger] ctx.observed[i]).1 == ctx.now_ms(),
{
    lemma_latest_is_one(ctx.observed);
}

proof fn lemma_latest_is_one(observed: Seq<(SeqNo, u64)>)
    ensures
        forall|i: int| 0 <= i < observed.len() ==> (#[trigger] observed[i]).1 <= latest(observed),
        latest(observed) == 0 || exists|i: int|
            0 <= i < observed.len() && (#[trigger] observed[i]).1 == latest(observed),
    decreases observed.len(),
{
    if observed.len() > 0 {
        let before = observed.drop_last();
        lemma_latest_is_one(before);
        assert forall|i: int| 0 <= i < observed.len() implies (#[trigger] observed[i]).1
            <= latest(observed) by {
            if i < before.len() {
                assert(before[i].1 <= latest(before));
            }
        }
        if latest(observed) == observed.last().1 {
            assert(observed[observed.len() - 1].1 == latest(observed));
        } else if latest(before) != 0 {
            let i = choose|i: int|
                0 <= i < before.len() && (#[trigger] before[i]).1 == latest(before);
            assert(observed[i].1 == latest(observed));
        }
    }
}

/// Right after an activity or a timer was found ready, workflow time is the time of
/// its result, or that of a later one observed before.
pub proof fn law_awaiting_moves_time_to_the_result<T: Observe>(
    seq: SeqNo,
    ctx: CtxView<T::Obs>,
    after: SeqNo,
    ctx_after: CtxView<T::Obs>,
    activity: Poll<Result<Text, Text>>,
    timer: Poll<()>,
)
    requires
        ({
            ||| activity is Ready && <ActivityFuture as Coroutine<
                T,
                Result<Payload, ActivityFailure>,
            >>::polled(seq, ctx, after, ctx_after, activity)
            ||| timer is Ready && <TimerFuture as Coroutine<T, ()>>::polled(
                seq,
                ctx,
                after,
                ctx_after,
                timer,
            )
        }),
    ensures
        ctx.resolved.contains_key(seq),
        ctx_after.now_ms() == if ctx.resolved[seq].1 > ctx.now_ms() {
            ctx.resolved[seq].1
        } else {
            ctx.now_ms()
        },
{
    assert(ctx_after.observed.drop_last() =~= ctx.observed);
}

/// Replaying ends for good: at every point of a pass the workflow is replaying while
/// it has issued fewer commands than the log records, and from the point where it no
/// longer is, it never is again.
pub proof fn law_replaying_ends_for_good<T>(
    h: Seq<HistoryEventView>,
    a: CtxView<T>,
    b: CtxView<T>,
)
    requires
        grows(fresh_ctx::<T>(h), a),
        grows(a, b),
    ensures
        a.is_replaying() <==> a.commands.len() < commands_of(h).len(),
        !a.is_replaying() ==> !b.is_replaying(),
{
}

/// Awaiting observes: an activity or a timer that is ready adds its result's
/// timestamp to the observations, and one that waits adds nothing.
pub proof fn law_awaiting_observes_the_result<T: Observe>(
    seq: SeqNo,
    ctx: CtxView<T::Obs>,
    after: SeqNo,
    ctx_after: CtxView<T::Obs>,
    activity: Poll<Result<Text, Text>>,
    timer: Poll<()>,
)
    ensures
        <ActivityFuture as Coroutine<T, Result<Payload, ActivityFailure>>>::polled(
            seq,
            ctx,
            after,
            ctx_after,
            activity,
        ) ==> ctx_after.observed == if activity is Ready {
            ctx.observed.push((seq, ctx.resolved[seq].1))
        } else {
            ctx.observed
        },
        <TimerFuture as Coroutine<T, ()>>::polled(seq, ctx, after, ctx_after, timer)
            ==> ctx_after.observed == if timer is Ready {
            ctx.observed.push((seq, ctx.resolved[seq].1))
        } else {
            ctx.observed
        },
{
}

/// The `n`th random number of a pass depends on the seed and on `n` alone: in two
/// passes over logs with the same seed, whatever else they record, the draws with
/// the same index give the same number.
pub proof fn law_the_nth_random_number_depends_on_the_seed_alone<T, U>(
    h1: Seq<HistoryEventView>,
    x: CtxView<T>,
    h2: Seq<HistoryEventView>,
    y: CtxView<U>,
)
    requires
        grows(fresh_ctx(h1), x),
        grows(fresh_ctx(h2), y),
        seed_of(h1) == seed_of(h2),
        x.draws == y.draws,
    ensures
        nth_random(x.seed, x.draws) == nth_random(seed_of(h1), x.draws),
        nth_random(x.seed, x.draws) == nth_random(y.seed, y.draws),
        rng_after(x.seed, x.draws) == rng_after(seed_of(h1), x.draws),
{
}

proof fn lemma_steps_add_up(seed: u64, n: nat)
    ensures
        rng_after(seed, n) as nat == (seed + n * 0x9E37_79B9_7F4A_7C15) % 0x1_0000_0000_0000_0000,
    decreases n,
{
    let c: nat = 0x9E37_79B9_7F4A_7C15;
    let m: nat = 0x1_0000_0000_0000_0000;
    if n > 0 {
        let k = (n - 1) as nat;
        lemma_steps_add_up(seed, k);
        let x = rng_after(seed, k);
        assert(n * c == k * c + c) by (nonlinear_arith)
            requires
                n == k + 1,
        ;
        let a: int = seed + k * c;
        assert(x as int == a % (m as int));
        assert((a + c) % (m as int) == (a % (m as int) + c) % (m as int)) by {
            vstd::arithmetic::div_mod::lemma_add_mod_noop(a, c as int, m as int);
            vstd::arithmetic::div_mod::lemma_small_mod(c, m);
        }
        let y: int = x + c;
        if y >= m {
            assert(y % (m as int) == y - m) by {
                vstd::arithmetic::div_mod::lemma_fundamental_div_mod_converse(
                    y,
                    m as int,
                    1,
                    y - m,
                );
            }
        } else {
            vstd::arithmetic::div_mod::lemma_small_mod(y as nat, m);
        }
    } else {
        assert(n * c == 0);
        vstd::arithmetic::div_mod::lemma_small_mod(seed as nat, m);
    }
}

/// The random numbers are the values of one fixed mixing function at equal steps from
/// the seed. The step is an odd constant, so that the states repeat only after all
/// 64-bit numbers; the mixing folds the upper bits into the lower ones three times,
/// with two multiplications in between, all modulo two to the 64.
pub proof fn law_random_numbers_are_mixed_steps_from_the_seed(seed: u64, n: nat)
    ensures
        ({
            let m = 0x1_0000_0000_0000_0000;
            let x = ((seed + (n + 1) * 0x9E37_79B9_7F4A_7C15) % m) as u64;
            let a = (((x ^ (x >> 30)) * 0xBF58_476D_1CE4_E5B9) % m) as u64;
            let b = (((a ^ (a >> 27)) * 0x94D0_49BB_1331_11EB) % m) as u64;
            nth_random(seed, n) == b ^ (b >> 31)
        }),
{
    lemma_steps_add_up(seed, n + 1);
}

/// Drawing goes on where it was: the number with index `k + n` is the one with index
/// `n` of a generator that was `k` steps ahead when it began.
pub proof fn law_draws_go_on_where_they_were(seed: u64, k: nat, n: nat)
    ensures
        nth_random(seed, k + n) == nth_random(rng_after(seed, k), n),
        rng_after(seed, 0) == seed,
{
    lemma_steps_join(seed, k, n + 1);
    assert(k + n + 1 == k + (n + 1));
}

proof fn lemma_steps_join(seed: u64, k: nat, n: nat)
    ensures
        rng_after(seed, k + n) == rng_after(rng_after(seed, k), n),
    decreases n,
{
    if n > 0 {
        lemma_steps_join(seed, k, (n - 1) as nat);
        assert((k + n - 1) as nat == k + (n - 1) as nat);
    }
}

} // verus!
