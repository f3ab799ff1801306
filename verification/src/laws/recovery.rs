//! Replay picks up where an earlier pass stopped.

use vstd::prelude::*;

use crate::command::CommandView;
use crate::coroutine::{Coroutine, Workflow};
use crate::driver::{CrashPolicy, RunOutcomeView};
use crate::engine::{
    agree, all_attempted, fresh_commands, pending_of, ran, task, task_begun, task_ends, tasks_made,
    Engine,
};
use crate::history::{
    commands_of, input_of, markers_of, results_of, seed_of, started, EventView, HistoryEventView,
    Payload, RecordedResultView,
};
use crate::laws::effects::{
    executed_since, execution_of, is_sound, law_a_lost_result_is_asked_for_again,
    law_a_new_log_is_sound, law_no_crash_without_a_policy, lemma_closing_task,
    lemma_deadlocked_task, lemma_pending_of, lemma_quiet_event, lemma_ran_accounted,
    lemma_resolved_was_executed, lemma_task_ends, lost_a_result,
};
use crate::laws::faithfulness::{
    alike, faithful, faithful_workflow, frozen, grows, is_frozen, lemma_frozen_before,
    lemma_grows_refl, lemma_grows_trans, orderly, undisturbed,
};
use crate::laws::log::{
    is_open, law_the_log_tells_the_outcome, lemma_prefix_trans, lemma_task_ends_log,
};
use crate::laws::passes::{
    lemma_ends_of_pass, lemma_first_delivery, lemma_first_rest, lemma_first_rounds,
    lemma_last_round, lemma_last_turn, lemma_settling_round, lemma_turns,
};
use crate::laws::records::law_a_recorded_marker_is_frozen;
use crate::replay::{
    deliveries, replays, round, run_to_block, tasks_polled, unsettled_rounds, PassState, PassView,
    MAX_ROUNDS,
};
use crate::text::Text;
use crate::workflow::{fresh_ctx, CtxView};

verus! {

/// Two passes under way are in the same state, as far as the workflow can tell.
pub open spec fn in_step<R, T>(a: PassState<R, T>, b: PassState<R, T>) -> bool {
    &&& a.root == b.root
    &&& a.poll == b.poll
    &&& alike(a.ctx, b.ctx)
}

proof fn lemma_tasks_grow<T: Coroutine<T, ()>>(
    taken: Seq<T::Obs>,
    x: CtxView<T::Obs>,
    still: Seq<T::Obs>,
    c: CtxView<T::Obs>,
)
    requires
        orderly::<T, (), T>(),
        tasks_polled::<T>(taken, x, still, c),
    ensures
        grows(x, c),
        undisturbed(x, c),
    decreases taken.len(),
{
    lemma_grows_refl(x);
    if taken.len() > 0 {
        let t = lemma_last_turn::<T>(taken, x, still, c);
        lemma_tasks_grow::<T>(taken.drop_last(), x, t.kept, t.mid);
        lemma_grows_trans(x, t.mid, t.end);
    }
}

proof fn lemma_tasks_follow<T: Coroutine<T, ()>>(
    taken: Seq<T::Obs>,
    x1: CtxView<T::Obs>,
    s1: Seq<T::Obs>,
    c1: CtxView<T::Obs>,
    x2: CtxView<T::Obs>,
    s2: Seq<T::Obs>,
    c2: CtxView<T::Obs>,
)
    requires
        faithful::<T, (), T>(),
        tasks_polled::<T>(taken, x1, s1, c1),
        tasks_polled::<T>(taken, x2, s2, c2),
        alike(x1, x2),
        frozen(c1.commands, x2.markers),
    ensures
        s1 == s2,
        alike(c1, c2),
    decreases taken.len(),
{
    if taken.len() == 0 {
        assert(s1 =~= s2);
    } else {
        let rest = taken.drop_last();
        let t1 = lemma_last_turn::<T>(taken, x1, s1, c1);
        let t2 = lemma_last_turn::<T>(taken, x2, s2, c2);
        lemma_tasks_grow::<T>(rest, x2, t2.kept, t2.mid);
        lemma_frozen_before(t1.mid.commands, c1.commands, x2.markers);
        lemma_tasks_follow::<T>(rest, x1, t1.kept, t1.mid, x2, t2.kept, t2.mid);
    }
}

pub(crate) proof fn lemma_round_grows<
    T: Coroutine<T, ()>,
    R: Coroutine<T, Result<Payload, String>>,
>(
    s: PassState<R::Obs, T::Obs>,
    e: PassState<R::Obs, T::Obs>,
)
    requires
        orderly::<T, (), T>(),
        orderly::<T, Result<Payload, String>, R>(),
        round::<T, R>(s, e),
    ensures
        grows(s.ctx, e.ctx),
        undisturbed(s.ctx, e.ctx),
{
    let (mid, still, end) = lemma_turns::<T, R>(s, e);
    let c0 = s.ctx.with_progress(false);
    lemma_grows_refl(c0);
    assert(grows(c0, mid));
    lemma_tasks_grow::<T>(mid.tasks, mid.with_tasks(Seq::empty()), still, end);
    lemma_grows_trans(c0, mid, end);
}

proof fn lemma_round_follows<T: Coroutine<T, ()>, R: Coroutine<T, Result<Payload, String>>>(
    s1: PassState<R::Obs, T::Obs>,
    e1: PassState<R::Obs, T::Obs>,
    s2: PassState<R::Obs, T::Obs>,
    e2: PassState<R::Obs, T::Obs>,
)
    requires
        faithful::<T, (), T>(),
        faithful::<T, Result<Payload, String>, R>(),
        round::<T, R>(s1, e1),
        round::<T, R>(s2, e2),
        in_step(s1, s2),
        frozen(e1.ctx.commands, s2.ctx.markers),
    ensures
        in_step(e1, e2),
{
    let (m1, k1, d1) = lemma_turns::<T, R>(s1, e1);
    let (m2, k2, d2) = lemma_turns::<T, R>(s2, e2);
    let x1 = m1.with_tasks(Seq::empty());
    let x2 = m2.with_tasks(Seq::empty());
    lemma_tasks_grow::<T>(m1.tasks, x1, k1, d1);
    lemma_frozen_before(m1.commands, e1.ctx.commands, s2.ctx.markers);
    assert(alike(m1, m2));
    assert(m2.markers == s2.ctx.markers);
    lemma_tasks_follow::<T>(m1.tasks, x1, k1, d1, x2, k2, d2);
}

proof fn lemma_rounds_grow<T: Coroutine<T, ()>, R: Coroutine<T, Result<Payload, String>>>(
    n: nat,
    s: PassState<R::Obs, T::Obs>,
    e: PassState<R::Obs, T::Obs>,
)
    requires
        orderly::<T, (), T>(),
        orderly::<T, Result<Payload, String>, R>(),
        unsettled_rounds::<T, R>(n, s, e),
    ensures
        grows(s.ctx, e.ctx),
        undisturbed(s.ctx, e.ctx),
    decreases n,
{
    lemma_grows_refl(s.ctx);
    if n > 0 {
        let mid = lemma_last_round::<T, R>(n, s, e);
        lemma_rounds_grow::<T, R>((n - 1) as nat, s, mid);
        lemma_round_grows::<T, R>(mid, e);
        lemma_grows_trans(s.ctx, mid.ctx, e.ctx);
    }
}

proof fn lemma_rounds_follow<T: Coroutine<T, ()>, R: Coroutine<T, Result<Payload, String>>>(
    n: nat,
    s1: PassState<R::Obs, T::Obs>,
    e1: PassState<R::Obs, T::Obs>,
    s2: PassState<R::Obs, T::Obs>,
    e2: PassState<R::Obs, T::Obs>,
)
    requires
        faithful::<T, (), T>(),
        faithful::<T, Result<Payload, String>, R>(),
        unsettled_rounds::<T, R>(n, s1, e1),
        unsettled_rounds::<T, R>(n, s2, e2),
        in_step(s1, s2),
        frozen(e1.ctx.commands, s2.ctx.markers),
    ensures
        in_step(e1, e2),
    decreases n,
{
    if n > 0 {
        let m1 = lemma_last_round::<T, R>(n, s1, e1);
        let m2 = lemma_last_round::<T, R>(n, s2, e2);
        lemma_round_grows::<T, R>(m1, e1);
        lemma_rounds_grow::<T, R>((n - 1) as nat, s2, m2);
        lemma_frozen_before(m1.ctx.commands, e1.ctx.commands, s2.ctx.markers);
        lemma_rounds_follow::<T, R>((n - 1) as nat, s1, m1, s2, m2);
        lemma_round_follows::<T, R>(m1, e1, m2, e2);
    }
}

pub(crate) proof fn lemma_rest_grows<T: Coroutine<T, ()>, R: Coroutine<T, Result<Payload, String>>>(
    s: PassState<R::Obs, T::Obs>,
    e: PassState<R::Obs, T::Obs>,
    ok: bool,
)
    requires
        orderly::<T, (), T>(),
        orderly::<T, Result<Payload, String>, R>(),
        run_to_block::<T, R>(s, e, ok),
    ensures
        grows(s.ctx, e.ctx),
        undisturbed(s.ctx, e.ctx),
{
    if ok {
        let (n, mid) = lemma_settling_round::<T, R>(s, e);
        lemma_rounds_grow::<T, R>(n, s, mid);
        lemma_round_grows::<T, R>(mid, e);
        lemma_grows_trans(s.ctx, mid.ctx, e.ctx);
    } else {
        lemma_rounds_grow::<T, R>(MAX_ROUNDS as nat, s, e);
    }
}

/// If the first pass settles after `n` rounds, the second makes no more.
proof fn lemma_settles_as_soon<T: Coroutine<T, ()>, R: Coroutine<T, Result<Payload, String>>>(
    n: nat,
    s1: PassState<R::Obs, T::Obs>,
    m1: PassState<R::Obs, T::Obs>,
    e1: PassState<R::Obs, T::Obs>,
    more: nat,
    s2: PassState<R::Obs, T::Obs>,
    later: PassState<R::Obs, T::Obs>,
)
    requires
        faithful::<T, (), T>(),
        faithful::<T, Result<Payload, String>, R>(),
        unsettled_rounds::<T, R>(n, s1, m1),
        round::<T, R>(m1, e1),
        e1.is_settled(),
        unsettled_rounds::<T, R>(more, s2, later),
        in_step(s1, s2),
        frozen(e1.ctx.commands, s2.ctx.markers),
    ensures
        more <= n,
{
    if more > n {
        let upto = lemma_first_rounds::<T, R>((n + 1) as nat, more, s2, later);
        let before = lemma_last_round::<T, R>((n + 1) as nat, s2, upto);
        lemma_round_grows::<T, R>(m1, e1);
        lemma_rounds_grow::<T, R>(n, s2, before);
        lemma_frozen_before(m1.ctx.commands, e1.ctx.commands, s2.ctx.markers);
        lemma_rounds_follow::<T, R>(n, s1, m1, s2, before);
        lemma_round_follows::<T, R>(m1, e1, before, upto);
    }
}

/// If the second pass settles after `n` rounds, the first made no more.
proof fn lemma_settled_as_soon<T: Coroutine<T, ()>, R: Coroutine<T, Result<Payload, String>>>(
    more: nat,
    s1: PassState<R::Obs, T::Obs>,
    later: PassState<R::Obs, T::Obs>,
    n: nat,
    s2: PassState<R::Obs, T::Obs>,
    m2: PassState<R::Obs, T::Obs>,
    e2: PassState<R::Obs, T::Obs>,
)
    requires
        faithful::<T, (), T>(),
        faithful::<T, Result<Payload, String>, R>(),
        unsettled_rounds::<T, R>(more, s1, later),
        unsettled_rounds::<T, R>(n, s2, m2),
        round::<T, R>(m2, e2),
        e2.is_settled(),
        in_step(s1, s2),
        frozen(later.ctx.commands, s2.ctx.markers),
    ensures
        more <= n,
    decreases more,
{
    if more > n {
        let before = lemma_last_round::<T, R>(more, s1, later);
        lemma_round_grows::<T, R>(before, later);
        lemma_frozen_before(before.ctx.commands, later.ctx.commands, s2.ctx.markers);
        if more == n + 1 {
            lemma_rounds_grow::<T, R>(n, s2, m2);
            lemma_rounds_follow::<T, R>(n, s1, before, s2, m2);
            lemma_round_follows::<T, R>(before, later, m2, e2);
        } else {
            lemma_settled_as_soon::<T, R>((more - 1) as nat, s1, before, n, s2, m2, e2);
        }
    }
}

pub(crate) proof fn lemma_rest_follows<
    T: Coroutine<T, ()>,
    R: Coroutine<T, Result<Payload, String>>,
>(
    s1: PassState<R::Obs, T::Obs>,
    e1: PassState<R::Obs, T::Obs>,
    ok1: bool,
    s2: PassState<R::Obs, T::Obs>,
    e2: PassState<R::Obs, T::Obs>,
    ok2: bool,
)
    requires
        faithful::<T, (), T>(),
        faithful::<T, Result<Payload, String>, R>(),
        run_to_block::<T, R>(s1, e1, ok1),
        run_to_block::<T, R>(s2, e2, ok2),
        in_step(s1, s2),
        frozen(e1.ctx.commands, s2.ctx.markers),
    ensures
        in_step(e1, e2),
        ok1 == ok2,
{
    let max = MAX_ROUNDS as nat;
    if ok1 {
        let (n1, m1) = lemma_settling_round::<T, R>(s1, e1);
        if ok2 {
            let (n2, m2) = lemma_settling_round::<T, R>(s2, e2);
            lemma_round_grows::<T, R>(m1, e1);
            lemma_rounds_grow::<T, R>(n2, s2, m2);
            lemma_frozen_before(m1.ctx.commands, e1.ctx.commands, s2.ctx.markers);
            lemma_settles_as_soon::<T, R>(n1, s1, m1, e1, n2, s2, m2);
            lemma_settled_as_soon::<T, R>(n1, s1, m1, n2, s2, m2, e2);
            lemma_rounds_follow::<T, R>(n1, s1, m1, s2, m2);
            lemma_round_follows::<T, R>(m1, e1, m2, e2);
        } else {
            lemma_settles_as_soon::<T, R>(n1, s1, m1, e1, max, s2, e2);
        }
    } else if ok2 {
        let (n2, m2) = lemma_settling_round::<T, R>(s2, e2);
        lemma_settled_as_soon::<T, R>(max, s1, e1, n2, s2, m2, e2);
    } else {
        lemma_rounds_follow::<T, R>(max, s1, e1, s2, e2);
    }
}

pub(crate) proof fn lemma_deliveries_grow<
    T: Coroutine<T, ()>,
    R: Coroutine<T, Result<Payload, String>>,
>(
    results: Seq<RecordedResultView>,
    s: PassState<R::Obs, T::Obs>,
    e: PassState<R::Obs, T::Obs>,
    ok: bool,
)
    requires
        orderly::<T, (), T>(),
        orderly::<T, Result<Payload, String>, R>(),
        deliveries::<T, R>(results, s, e, ok),
    ensures
        grows(s.ctx, e.ctx),
    decreases results.len(),
{
    lemma_grows_refl(s.ctx);
    if results.len() > 0 && s.poll is Pending {
        let (mid, blocked) = lemma_first_delivery::<T, R>(results, s, e, ok);
        lemma_rest_grows::<T, R>(s.delivered(results.first()), mid, blocked);
        if blocked {
            lemma_deliveries_grow::<T, R>(results.drop_first(), mid, e, ok);
            lemma_grows_trans(s.ctx, mid.ctx, e.ctx);
        }
    }
}

pub(crate) proof fn lemma_deliveries_follow<
    T: Coroutine<T, ()>,
    R: Coroutine<T, Result<Payload, String>>,
>(
    r1: Seq<RecordedResultView>,
    s1: PassState<R::Obs, T::Obs>,
    e1: PassState<R::Obs, T::Obs>,
    ok1: bool,
    r2: Seq<RecordedResultView>,
    s2: PassState<R::Obs, T::Obs>,
    e2: PassState<R::Obs, T::Obs>,
    ok2: bool,
)
    requires
        faithful::<T, (), T>(),
        faithful::<T, Result<Payload, String>, R>(),
        deliveries::<T, R>(r1, s1, e1, ok1),
        deliveries::<T, R>(r2, s2, e2, ok2),
        r1.is_prefix_of(r2),
        in_step(s1, s2),
        frozen(e1.ctx.commands, s2.ctx.markers),
    ensures
        e1.ctx.commands.is_prefix_of(e2.ctx.commands),
        e1.poll is Ready || !ok1 || r1.len() == r2.len() ==> in_step(e1, e2) && ok1 == ok2,
    decreases r1.len(),
{
    lemma_deliveries_grow::<T, R>(r2, s2, e2, ok2);
    if r1.len() > 0 && s1.poll is Pending {
        let (m1, b1) = lemma_first_delivery::<T, R>(r1, s1, e1, ok1);
        let (m2, b2) = lemma_first_delivery::<T, R>(r2, s2, e2, ok2);
        let x1 = s1.delivered(r1.first());
        let x2 = s2.delivered(r2.first());
        assert(r1.first() == r2.subrange(0, r1.len() as int)[0]);
        lemma_rest_grows::<T, R>(x2, m2, b2);
        if b1 {
            lemma_deliveries_grow::<T, R>(r1.drop_first(), m1, e1, ok1);
        } else {
            lemma_grows_refl(m1.ctx);
        }
        lemma_frozen_before(m1.ctx.commands, e1.ctx.commands, s2.ctx.markers);
        lemma_rest_follows::<T, R>(x1, m1, b1, x2, m2, b2);
        if b1 {
            let t1 = r1.drop_first();
            let t2 = r2.drop_first();
            assert(t1 =~= t2.subrange(0, t1.len() as int)) by {
                assert forall|i: int| 0 <= i < t1.len() implies t1[i] == t2[i] by {
                    assert(r1[i + 1] == r2.subrange(0, r1.len() as int)[i + 1]);
                }
            }
            lemma_deliveries_follow::<T, R>(t1, m1, e1, ok1, t2, m2, e2, ok2);
        } else {
            lemma_grows_refl(e2.ctx);
        }
    }
}

/// Replay picks up where an earlier pass stopped. Let `first` be a pass of a
/// faithful workflow, and `second` a pass over a log of the same execution that
/// holds the results that `first` saw, perhaps more after them, and the values of
/// the side effects that `first` made. Then `second` issues the commands of
/// `first` again, payloads included, and goes on from there. If `first` was
/// through, or there is nothing more to see, then `second` ends as `first` did.
pub proof fn law_replay_picks_up_where_it_stopped<
    T: Coroutine<T, ()>,
    R: Coroutine<T, Result<Payload, String>>,
    W: Workflow<T, R>,
>(
    wf: W,
    h1: Seq<HistoryEventView>,
    first: PassView,
    h2: Seq<HistoryEventView>,
    second: PassView,
)
    requires
        faithful_workflow::<T, R, W>(wf),
        replays::<T, R, W>(wf, h1, first),
        replays::<T, R, W>(wf, h2, second),
        input_of(h1) == input_of(h2),
        seed_of(h1) == seed_of(h2),
        results_of(h1).is_prefix_of(results_of(h2)),
        frozen(first.commands, markers_of(h2)),
    ensures
        first.commands.is_prefix_of(second.commands),
        first.poll is Ready || first.deadlocked || results_of(h1) == results_of(h2) ==> {
            &&& second.poll == first.poll
            &&& second.commands == first.commands
            &&& second.deadlocked == first.deadlocked
        },
{
    let r1 = results_of(h1);
    let r2 = results_of(h2);
    let (s1, e1) = lemma_ends_of_pass::<T, R, W>(wf, h1, first);
    let (s2, e2) = lemma_ends_of_pass::<T, R, W>(wf, h2, second);
    let (m1, b1) = lemma_first_rest::<T, R>(r1, s1, e1, first.deadlocked);
    let (m2, b2) = lemma_first_rest::<T, R>(r2, s2, e2, second.deadlocked);
    lemma_rest_grows::<T, R>(s1, m1, b1);
    lemma_rest_grows::<T, R>(s2, m2, b2);
    lemma_grows_refl(m1.ctx);
    if b1 {
        lemma_deliveries_grow::<T, R>(r1, m1, e1, !first.deadlocked);
    }
    lemma_frozen_before(m1.ctx.commands, e1.ctx.commands, markers_of(h2));
    lemma_frozen_before(s1.ctx.commands, m1.ctx.commands, markers_of(h2));
    assert(alike(fresh_ctx::<T::Obs>(h1), fresh_ctx::<T::Obs>(h2)));
    assert(in_step(s1, s2));
    lemma_rest_follows::<T, R>(s1, m1, b1, s2, m2, b2);
    if b1 {
        lemma_deliveries_follow::<T, R>(
            r1,
            m1,
            e1,
            !first.deadlocked,
            r2,
            m2,
            e2,
            !second.deadlocked,
        );
    } else {
        lemma_grows_refl(e2.ctx);
    }
}

/// The commands that the log `h` records are those of `pass`, a pass of `wf` over
/// an earlier state `h0` of the log.
pub open spec fn recorded_by<
    T: Coroutine<T, ()>,
    R: Coroutine<T, Result<Payload, String>>,
    W: Workflow<T, R>,
>(wf: W, h: Seq<HistoryEventView>, h0: Seq<HistoryEventView>, pass: PassView) -> bool {
    &&& replays::<T, R, W>(wf, h0, pass)
    &&& input_of(h0) == input_of(h)
    &&& seed_of(h0) == seed_of(h)
    &&& results_of(h0).is_prefix_of(results_of(h))
    &&& pass.commands == commands_of(h)
}

/// The log `h` is sound, and all its commands, if it has any, are the workflow
/// `wf`'s.
pub open spec fn written_by<
    T: Coroutine<T, ()>,
    R: Coroutine<T, Result<Payload, String>>,
    W: Workflow<T, R>,
>(wf: W, h: Seq<HistoryEventView>) -> bool {
    &&& is_sound(h)
    &&& commands_of(h).len() == 0 || exists|h0: Seq<HistoryEventView>, pass: PassView| #[trigger]
        recorded_by::<T, R, W>(wf, h, h0, pass)
}

/// More results, and events that carry neither commands nor results, change
/// nothing about who wrote the commands.
proof fn lemma_still_written_by<
    T: Coroutine<T, ()>,
    R: Coroutine<T, Result<Payload, String>>,
    W: Workflow<T, R>,
>(wf: W, h: Seq<HistoryEventView>, later: Seq<HistoryEventView>)
    requires
        written_by::<T, R, W>(wf, h),
        is_sound(later),
        input_of(later) == input_of(h),
        seed_of(later) == seed_of(h),
        commands_of(later) == commands_of(h),
        results_of(h).is_prefix_of(results_of(later)),
    ensures
        written_by::<T, R, W>(wf, later),
{
    if commands_of(h).len() > 0 {
        let (h0, pass) = choose|h0: Seq<HistoryEventView>, pass: PassView| #[trigger]
            recorded_by::<T, R, W>(wf, h, h0, pass);
        lemma_prefix_trans(results_of(h0), results_of(h), results_of(later));
        assert(recorded_by::<T, R, W>(wf, later, h0, pass));
    }
}

/// A pass over a log that the workflow wrote itself issues the recorded commands
/// again, payloads included.
proof fn lemma_own_commands_again<
    T: Coroutine<T, ()>,
    R: Coroutine<T, Result<Payload, String>>,
    W: Workflow<T, R>,
>(wf: W, h: Seq<HistoryEventView>, pass: PassView)
    requires
        faithful_workflow::<T, R, W>(wf),
        written_by::<T, R, W>(wf, h),
        replays::<T, R, W>(wf, h, pass),
    ensures
        commands_of(h).is_prefix_of(pass.commands),
{
    let recorded = commands_of(h);
    if recorded.len() == 0 {
        assert(recorded =~= pass.commands.subrange(0, 0));
    } else {
        let (h0, first) = choose|h0: Seq<HistoryEventView>, pass: PassView| #[trigger]
            recorded_by::<T, R, W>(wf, h, h0, pass);
        assert forall|i: int| 0 <= i < recorded.len() implies is_frozen(
            #[trigger] recorded[i],
            markers_of(h),
        ) by {
            if recorded[i] is RecordMarker {
                law_a_recorded_marker_is_frozen(h, i);
            }
        }
        law_replay_picks_up_where_it_stopped::<T, R, W>(wf, h0, first, h, pass);
    }
}

/// The task's own start event changes nothing about who wrote the commands.
proof fn lemma_begun_written_by<
    T: Coroutine<T, ()>,
    R: Coroutine<T, Result<Payload, String>>,
    W: Workflow<T, R>,
    F: Fn(Payload) -> Result<Payload, String>,
>(wf: W, s: Engine<F>, attempt: u32)
    requires
        written_by::<T, R, W>(wf, s.history),
    ensures
        written_by::<T, R, W>(wf, task_begun(s, attempt).history),
{
    let begun = task_begun(s, attempt);
    lemma_quiet_event(
        s.history,
        begun.worker.clock_ms,
        EventView::WorkflowTaskStarted { attempt },
    );
    let r = results_of(s.history);
    assert(r.subrange(0, r.len() as int) =~= r);
    lemma_still_written_by::<T, R, W>(wf, s.history, begun.history);
}

proof fn lemma_task_ends_written_by<
    T: Coroutine<T, ()>,
    R: Coroutine<T, Result<Payload, String>>,
    W: Workflow<T, R>,
    F: Fn(Payload) -> Result<Payload, String>,
>(wf: W, s: Engine<F>, attempt: u32, pass: PassView, e: Engine<F>, out: Option<RunOutcomeView>)
    requires
        faithful_workflow::<T, R, W>(wf),
        written_by::<T, R, W>(wf, s.history),
        s.history.len() > 0,
        is_open(s.history),
        replays::<T, R, W>(wf, s.history, pass),
        task_ends(s, attempt, pass, e, out),
    ensures
        written_by::<T, R, W>(wf, e.history),
        !(out matches Some(RunOutcomeView::NonDeterminism { .. })),
{
    let h = s.history;
    let recorded = commands_of(h);
    lemma_own_commands_again::<T, R, W>(wf, h, pass);
    assert(agree(pass.commands, recorded)) by {
        assert forall|i: int|
            0 <= i < pass.commands.len() && i < recorded.len() implies (
        #[trigger] pass.commands[i]).matches(recorded[i]) by {
            assert(recorded[i] == pass.commands.subrange(0, recorded.len() as int)[i]);
        }
    }
    lemma_task_ends(s, attempt, pass, e, out);
    lemma_task_ends_log(s, attempt, pass, e, out);
    assert(e.history[0] == h[0]) by {
        assert(h[0] == e.history.subrange(0, h.len() as int)[0]);
    }
    if pass.deadlocked {
        lemma_still_written_by::<T, R, W>(wf, h, e.history);
    } else {
        assert(recorded + fresh_commands(pass.commands, recorded) =~= pass.commands) by {
            assert(recorded =~= pass.commands.subrange(0, recorded.len() as int));
        }
        assert(recorded_by::<T, R, W>(wf, e.history, h, pass));
    }
}

proof fn lemma_task_written_by<
    T: Coroutine<T, ()>,
    R: Coroutine<T, Result<Payload, String>>,
    W: Workflow<T, R>,
    F: Fn(Payload) -> Result<Payload, String>,
>(wf: W, s: Engine<F>, attempt: u32, e: Engine<F>, out: Option<RunOutcomeView>)
    requires
        faithful_workflow::<T, R, W>(wf),
        written_by::<T, R, W>(wf, s.history),
        task::<T, R, W, F>(wf, s, attempt, e, out),
    ensures
        written_by::<T, R, W>(wf, e.history),
        !(out matches Some(RunOutcomeView::NonDeterminism { .. })),
{
    if s.can_tick(1) {
        let begun = task_begun(s, attempt);
        lemma_begun_written_by::<T, R, W, F>(wf, s, attempt);
        let pass = choose|pass: PassView|
            {
                &&& #[trigger] replays::<T, R, W>(wf, begun.history, pass)
                &&& task_ends(begun, attempt, pass, e, out)
            };
        lemma_task_ends_written_by::<T, R, W, F>(wf, begun, attempt, pass, e, out);
    }
}

proof fn lemma_tasks_written_by<
    T: Coroutine<T, ()>,
    R: Coroutine<T, Result<Payload, String>>,
    W: Workflow<T, R>,
    F: Fn(Payload) -> Result<Payload, String>,
>(wf: W, s: Engine<F>, attempt: u32, e: Engine<F>)
    requires
        faithful_workflow::<T, R, W>(wf),
        written_by::<T, R, W>(wf, s.history),
        tasks_made::<T, R, W, F>(wf, s, attempt, e),
    ensures
        written_by::<T, R, W>(wf, e.history),
    decreases attempt,
{
    if attempt > 1 {
        let before = (attempt - 1) as u32;
        let mid = choose|mid: Engine<F>|
            {
                &&& tasks_made::<T, R, W, F>(wf, s, before, mid)
                &&& #[trigger] task::<T, R, W, F>(wf, mid, before, e, None)
            };
        lemma_tasks_written_by::<T, R, W, F>(wf, s, before, mid);
        lemma_task_written_by::<T, R, W, F>(wf, mid, before, e, None);
    }
}

/// The log of a new execution can be any workflow's.
pub proof fn law_a_new_log_is_anyones<
    T: Coroutine<T, ()>,
    R: Coroutine<T, Result<Payload, String>>,
    W: Workflow<T, R>,
>(wf: W, input: Text)
    ensures
        written_by::<T, R, W>(wf, started(input)),
{
    law_a_new_log_is_sound(input);
    let h = started(input);
    reveal_with_fuel(Seq::filter_map, 2);
    assert(h.drop_last() =~= Seq::empty());
    assert(commands_of(h) =~= Seq::empty());
}

/// Unchanged code never diverges: a run of a faithful workflow on a log that the
/// workflow wrote itself never ends in non-determinism, however many workers have
/// crashed on the log before, and the log it leaves is the workflow's own again.
pub proof fn law_unchanged_code_never_diverges<
    T: Coroutine<T, ()>,
    R: Coroutine<T, Result<Payload, String>>,
    W: Workflow<T, R>,
    F: Fn(Payload) -> Result<Payload, String>,
>(wf: W, s: Engine<F>, e: Engine<F>, out: RunOutcomeView)
    requires
        faithful_workflow::<T, R, W>(wf),
        written_by::<T, R, W>(wf, s.history),
        ran::<T, R, W, F>(wf, s, e, out),
    ensures
        !(out is NonDeterminism),
        written_by::<T, R, W>(wf, e.history),
{
    if is_open(s.history) {
        let s0 = s.resumed();
        let (attempt, mid) = choose|attempt: u32, mid: Engine<F>|
            {
                &&& attempt >= 1
                &&& #[trigger] tasks_made::<T, R, W, F>(wf, s0, attempt, mid)
                &&& #[trigger] task::<T, R, W, F>(wf, mid, attempt, e, Some(out))
            };
        lemma_tasks_written_by::<T, R, W, F>(wf, s0, attempt, mid);
        lemma_task_written_by::<T, R, W, F>(wf, mid, attempt, e, Some(out));
    }
}

/// An activity whose result was lost in a crash runs again on recovery: the next
/// worker that does not crash, and does not run out of room, executes it once
/// more. The one exception is a workflow that never comes to rest.
pub proof fn law_a_lost_activity_runs_again<
    T: Coroutine<T, ()>,
    R: Coroutine<T, Result<Payload, String>>,
    W: Workflow<T, R>,
    F: Fn(Payload) -> Result<Payload, String>,
>(
    wf: W,
    s: Engine<F>,
    e1: Engine<F>,
    o1: RunOutcomeView,
    b: Engine<F>,
    e2: Engine<F>,
    o2: RunOutcomeView,
) -> (c: CommandView)
    requires
        faithful_workflow::<T, R, W>(wf),
        written_by::<T, R, W>(wf, s.history),
        ran::<T, R, W, F>(wf, s, e1, o1),
        lost_a_result(Some(o1)),
        b.history == e1.history,
        b.worker.crash == CrashPolicy::Never,
        ran::<T, R, W, F>(wf, b, e2, o2),
        !(o2 is Exhausted),
    ensures
        c is ScheduleActivity,
        execution_of(c) == e1.worker.registry.executions.last(),
        executed_since(b, e2, c) || exists|pass: PassView| #[trigger]
            replays::<T, R, W>(wf, e2.history, pass) && pass.deadlocked,
{
    let order = b.worker.completion_order;
    let c = law_a_lost_result_is_asked_for_again::<T, R, W, F>(wf, s, e1, o1, order);
    law_unchanged_code_never_diverges::<T, R, W, F>(wf, s, e1, o1);
    law_the_log_tells_the_outcome::<T, R, W, F>(wf, s, e1, o1);
    lemma_pending_of(e1.history, order);
    let pending = pending_of(e1.history, order);
    let k = choose|k: int| 0 <= k < pending.len() && pending[k] == c;
    assert(pending[k].is_blocking());
    let i = c.seq() as int;
    law_unchanged_code_never_diverges::<T, R, W, F>(wf, b, e2, o2);
    law_no_crash_without_a_policy::<T, R, W, F>(wf, b, e2, o2);
    let lost = lemma_ran_accounted::<T, R, W, F>(wf, b, e2, o2);
    let before = commands_of(e1.history);
    let after = commands_of(e2.history);
    assert(after[i] == c) by {
        assert(before[i] == after.subrange(0, before.len() as int)[i]);
    }
    let (attempt, mid) = choose|attempt: u32, mid: Engine<F>|
        {
            &&& attempt >= 1
            &&& #[trigger] tasks_made::<T, R, W, F>(wf, b.resumed(), attempt, mid)
            &&& #[trigger] task::<T, R, W, F>(wf, mid, attempt, e2, Some(o2))
        };
    if o2 is Deadlocked {
        lemma_deadlocked_task::<T, R, W, F>(wf, mid, attempt, e2);
    } else {
        lemma_closing_task::<T, R, W, F>(wf, mid, attempt, e2, o2);
    }
    if all_attempted(e2.history) {
        lemma_resolved_was_executed(b, e2, lost, i);
    }
    c
}

} // verus!
