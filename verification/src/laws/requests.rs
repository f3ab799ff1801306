//! What each request and each delivery does to the context, and what it leaves.

use vstd::prelude::*;

use crate::command::CommandView;
use crate::coroutine::{Coroutine, Observe, Poll};
use crate::history::{
    commands_of, input_of, markers_of, seed_of, shown_results_of, HistoryEventView, OutcomeView,
    Payload, RecordedResultView, SeqNo,
};
use crate::text::Text;
use crate::workflow::{
    fresh_ctx, in_sequence, ActivityFailure, ActivityFuture, CtxView, TimerFuture,
};

verus! {

/// Issuing a command adds it behind those that were issued, and is progress. Nothing
/// else changes.
pub proof fn law_issuing_adds_one_command<T>(ctx: CtxView<T>, c: CommandView)
    ensures
        ctx.issued(c).commands.len() == ctx.commands.len() + 1,
        ctx.issued(c).commands[ctx.commands.len() as int] == c,
        forall|i: int|
            0 <= i < ctx.commands.len() ==> #[trigger] ctx.issued(c).commands[i]
                == ctx.commands[i],
        ctx.issued(c).progressed,
        ctx.issued(c).input == ctx.input,
        ctx.issued(c).seed == ctx.seed,
        ctx.issued(c).draws == ctx.draws,
        ctx.issued(c).resolved == ctx.resolved,
        ctx.issued(c).observed == ctx.observed,
        ctx.issued(c).markers == ctx.markers,
        ctx.issued(c).recorded_command_count == ctx.recorded_command_count,
        ctx.issued(c).lines == ctx.lines,
        ctx.issued(c).muted == ctx.muted,
        ctx.issued(c).old_lines == ctx.old_lines,
        ctx.issued(c).tasks == ctx.tasks,
{
}

/// Commands are numbered from zero in the order in which they are issued, and there
/// is room for as many as there are 32-bit numbers, but one.
pub proof fn law_commands_are_numbered_in_order<T>(ctx: CtxView<T>, i: int)
    ensures
        ctx.can_issue() <==> ctx.commands.len() < 4294967295,
        ctx.can_issue() ==> ctx.next_seq() == ctx.commands.len(),
        in_sequence(ctx.commands) && 0 <= i < ctx.commands.len() ==> ctx.commands[i].seq() == i,
        (forall|j: int| 0 <= j < ctx.commands.len() ==> (#[trigger] ctx.commands[j]).seq() == j)
            ==> in_sequence(ctx.commands),
{
}

/// Observing a result adds its number and time behind what was observed. It is
/// progress exactly when that command's result had not been observed before. Nothing
/// else changes.
pub proof fn law_observing_adds_one_observation<T>(ctx: CtxView<T>, seq: SeqNo)
    ensures
        ctx.saw(seq).observed.len() == ctx.observed.len() + 1,
        ctx.saw(seq).observed[ctx.observed.len() as int] == (seq, ctx.resolved[seq].1),
        forall|i: int|
            0 <= i < ctx.observed.len() ==> #[trigger] ctx.saw(seq).observed[i]
                == ctx.observed[i],
        ctx.saw(seq).progressed <==> ctx.progressed || forall|i: int|
            0 <= i < ctx.observed.len() ==> (#[trigger] ctx.observed[i]).0 != seq,
        ctx.saw(seq).input == ctx.input,
        ctx.saw(seq).seed == ctx.seed,
        ctx.saw(seq).draws == ctx.draws,
        ctx.saw(seq).resolved == ctx.resolved,
        ctx.saw(seq).markers == ctx.markers,
        ctx.saw(seq).commands == ctx.commands,
        ctx.saw(seq).recorded_command_count == ctx.recorded_command_count,
        ctx.saw(seq).lines == ctx.lines,
        ctx.saw(seq).muted == ctx.muted,
        ctx.saw(seq).old_lines == ctx.old_lines,
        ctx.saw(seq).tasks == ctx.tasks,
{
}

/// A delivered result becomes visible under its number, with its outcome and time;
/// what was visible under other numbers stays. The deliveries that only repeat are
/// counted down. Nothing else changes.
pub proof fn law_delivering_shows_one_result<T>(
    ctx: CtxView<T>,
    r: RecordedResultView,
    q: SeqNo,
)
    ensures
        ctx.delivered(r).resolved.contains_key(r.seq),
        ctx.delivered(r).resolved[r.seq] == (r.outcome, r.time_ms),
        q != r.seq ==> ctx.delivered(r).resolved.contains_key(q) == ctx.resolved.contains_key(q),
        q != r.seq && ctx.resolved.contains_key(q) ==> ctx.delivered(r).resolved[q]
            == ctx.resolved[q],
        ctx.muted > 0 ==> ctx.delivered(r).muted + 1 == ctx.muted,
        ctx.muted == 0 ==> ctx.delivered(r).muted == 0,
        ctx.delivered(r).input == ctx.input,
        ctx.delivered(r).seed == ctx.seed,
        ctx.delivered(r).draws == ctx.draws,
        ctx.delivered(r).observed == ctx.observed,
        ctx.delivered(r).markers == ctx.markers,
        ctx.delivered(r).commands == ctx.commands,
        ctx.delivered(r).recorded_command_count == ctx.recorded_command_count,
        ctx.delivered(r).lines == ctx.lines,
        ctx.delivered(r).old_lines == ctx.old_lines,
        ctx.delivered(r).tasks == ctx.tasks,
        ctx.delivered(r).progressed == ctx.progressed,
{
}

/// Spawning adds one task behind those that wait, and is progress. Nothing else
/// changes.
pub proof fn law_spawning_adds_one_task<T>(ctx: CtxView<T>, task: T)
    ensures
        ctx.spawned(task).tasks.len() == ctx.tasks.len() + 1,
        ctx.spawned(task).tasks[ctx.tasks.len() as int] == task,
        forall|i: int|
            0 <= i < ctx.tasks.len() ==> #[trigger] ctx.spawned(task).tasks[i] == ctx.tasks[i],
        ctx.spawned(task).progressed,
        ctx.spawned(task).input == ctx.input,
        ctx.spawned(task).seed == ctx.seed,
        ctx.spawned(task).draws == ctx.draws,
        ctx.spawned(task).resolved == ctx.resolved,
        ctx.spawned(task).observed == ctx.observed,
        ctx.spawned(task).markers == ctx.markers,
        ctx.spawned(task).commands == ctx.commands,
        ctx.spawned(task).recorded_command_count == ctx.recorded_command_count,
        ctx.spawned(task).lines == ctx.lines,
        ctx.spawned(task).muted == ctx.muted,
        ctx.spawned(task).old_lines == ctx.old_lines,
{
}

/// Logging adds one line behind those that were logged. It is old if the workflow has
/// seen nothing new yet, or has recorded commands still to issue again. Nothing else
/// changes.
pub proof fn law_logging_adds_one_line<T>(ctx: CtxView<T>, msg: Text)
    ensures
        ctx.logged(msg).lines.len() == ctx.lines.len() + 1,
        ctx.logged(msg).lines[ctx.lines.len() as int] == msg,
        forall|i: int|
            0 <= i < ctx.lines.len() ==> #[trigger] ctx.logged(msg).lines[i] == ctx.lines[i],
        ctx.muted > 0 || ctx.commands.len() < ctx.recorded_command_count ==> ctx.logged(
            msg,
        ).old_lines == ctx.lines.len() + 1,
        ctx.muted == 0 && ctx.commands.len() >= ctx.recorded_command_count ==> ctx.logged(
            msg,
        ).old_lines == ctx.old_lines,
        ctx.logged(msg).input == ctx.input,
        ctx.logged(msg).seed == ctx.seed,
        ctx.logged(msg).draws == ctx.draws,
        ctx.logged(msg).resolved == ctx.resolved,
        ctx.logged(msg).observed == ctx.observed,
        ctx.logged(msg).markers == ctx.markers,
        ctx.logged(msg).commands == ctx.commands,
        ctx.logged(msg).recorded_command_count == ctx.recorded_command_count,
        ctx.logged(msg).muted == ctx.muted,
        ctx.logged(msg).tasks == ctx.tasks,
        ctx.logged(msg).progressed == ctx.progressed,
{
}

/// The new lines are those behind the old ones, in the order in which they were
/// logged.
pub proof fn law_new_lines_are_those_behind_the_old<T>(ctx: CtxView<T>)
    requires
        ctx.old_lines <= ctx.lines.len(),
    ensures
        ctx.new_lines().len() + ctx.old_lines == ctx.lines.len(),
        forall|i: int|
            ctx.old_lines <= i < ctx.lines.len() ==> #[trigger] ctx.lines[i]
                == ctx.new_lines()[i - ctx.old_lines],
{
}

/// Drawing a random number is counted, and changes nothing else.
pub proof fn law_drawing_is_counted<T>(ctx: CtxView<T>)
    ensures
        ctx.drawn().draws == ctx.draws + 1,
        ctx.drawn().input == ctx.input,
        ctx.drawn().seed == ctx.seed,
        ctx.drawn().resolved == ctx.resolved,
        ctx.drawn().observed == ctx.observed,
        ctx.drawn().markers == ctx.markers,
        ctx.drawn().commands == ctx.commands,
        ctx.drawn().recorded_command_count == ctx.recorded_command_count,
        ctx.drawn().lines == ctx.lines,
        ctx.drawn().muted == ctx.muted,
        ctx.drawn().old_lines == ctx.old_lines,
        ctx.drawn().tasks == ctx.tasks,
        ctx.drawn().progressed == ctx.progressed,
{
}

/// Setting the progress flag, or the tasks that wait, changes nothing else.
pub proof fn law_bookkeeping_changes_nothing_else<T>(
    ctx: CtxView<T>,
    flag: bool,
    waiting: Seq<T>,
)
    ensures
        ctx.with_progress(flag).progressed == flag,
        ctx.with_tasks(waiting).tasks == waiting,
        ctx.with_progress(flag).input == ctx.input,
        ctx.with_progress(flag).seed == ctx.seed,
        ctx.with_progress(flag).draws == ctx.draws,
        ctx.with_progress(flag).resolved == ctx.resolved,
        ctx.with_progress(flag).observed == ctx.observed,
        ctx.with_progress(flag).markers == ctx.markers,
        ctx.with_progress(flag).commands == ctx.commands,
        ctx.with_progress(flag).recorded_command_count == ctx.recorded_command_count,
        ctx.with_progress(flag).lines == ctx.lines,
        ctx.with_progress(flag).muted == ctx.muted,
        ctx.with_progress(flag).old_lines == ctx.old_lines,
        ctx.with_progress(flag).tasks == ctx.tasks,
        ctx.with_tasks(waiting).input == ctx.input,
        ctx.with_tasks(waiting).seed == ctx.seed,
        ctx.with_tasks(waiting).draws == ctx.draws,
        ctx.with_tasks(waiting).resolved == ctx.resolved,
        ctx.with_tasks(waiting).observed == ctx.observed,
        ctx.with_tasks(waiting).markers == ctx.markers,
        ctx.with_tasks(waiting).commands == ctx.commands,
        ctx.with_tasks(waiting).recorded_command_count == ctx.recorded_command_count,
        ctx.with_tasks(waiting).lines == ctx.lines,
        ctx.with_tasks(waiting).muted == ctx.muted,
        ctx.with_tasks(waiting).old_lines == ctx.old_lines,
        ctx.with_tasks(waiting).progressed == ctx.progressed,
{
}

/// A pass begins with what the log says of the execution, and with nothing done: no
/// result visible or observed, no command issued, no line logged, nothing drawn, no
/// task waiting.
pub proof fn law_a_pass_begins_with_nothing_done<T>(h: Seq<HistoryEventView>, q: SeqNo)
    ensures
        fresh_ctx::<T>(h).input == input_of(h),
        fresh_ctx::<T>(h).seed == seed_of(h),
        fresh_ctx::<T>(h).markers == markers_of(h),
        fresh_ctx::<T>(h).recorded_command_count == commands_of(h).len(),
        !fresh_ctx::<T>(h).resolved.contains_key(q),
        fresh_ctx::<T>(h).observed.len() == 0,
        fresh_ctx::<T>(h).commands.len() == 0,
        fresh_ctx::<T>(h).lines.len() == 0,
        fresh_ctx::<T>(h).old_lines == 0,
        fresh_ctx::<T>(h).tasks.len() == 0,
        fresh_ctx::<T>(h).draws == 0,
        !fresh_ctx::<T>(h).progressed,
        shown_results_of(h) is None ==> fresh_ctx::<T>(h).muted == 0,
        shown_results_of(h) matches Some(n) ==> fresh_ctx::<T>(h).muted == n + 1,
{
}

/// Awaiting an activity gives what the delivered result says, in full: the payload of
/// a completion, the reason of a failure. Until there is one it waits, and nothing
/// changes.
pub proof fn law_an_activity_gives_its_result<T: Observe>(
    seq: SeqNo,
    ctx: CtxView<T::Obs>,
    after: SeqNo,
    ctx_after: CtxView<T::Obs>,
    out: Poll<Result<Text, Text>>,
)
    requires
        <ActivityFuture as Coroutine<T, Result<Payload, ActivityFailure>>>::polled(
            seq,
            ctx,
            after,
            ctx_after,
            out,
        ),
    ensures
        after == seq,
        !ctx.resolved.contains_key(seq) ==> out is Pending && ctx_after == ctx,
        ctx.resolved.contains_key(seq) ==> match ctx.resolved[seq].0 {
            OutcomeView::Completed(p) => out == Poll::Ready(Ok::<Text, Text>(p)),
            OutcomeView::Failed(f) => out == Poll::Ready(Err::<Text, Text>(f)),
        },
        ctx.resolved.contains_key(seq) ==> ctx_after.observed == ctx.observed.push(
            (seq, ctx.resolved[seq].1),
        ),
        ctx_after.input == ctx.input,
        ctx_after.seed == ctx.seed,
        ctx_after.draws == ctx.draws,
        ctx_after.resolved == ctx.resolved,
        ctx_after.markers == ctx.markers,
        ctx_after.commands == ctx.commands,
        ctx_after.recorded_command_count == ctx.recorded_command_count,
        ctx_after.lines == ctx.lines,
        ctx_after.muted == ctx.muted,
        ctx_after.old_lines == ctx.old_lines,
        ctx_after.tasks == ctx.tasks,
{
}

/// A timer is ready once its firing was delivered. Until then it waits, and nothing
/// changes.
pub proof fn law_a_timer_is_ready_once_it_fired<T: Observe>(
    seq: SeqNo,
    ctx: CtxView<T::Obs>,
    after: SeqNo,
    ctx_after: CtxView<T::Obs>,
    out: Poll<()>,
)
    requires
        <TimerFuture as Coroutine<T, ()>>::polled(seq, ctx, after, ctx_after, out),
    ensures
        after == seq,
        out is Ready <==> ctx.resolved.contains_key(seq),
        out is Pending ==> ctx_after == ctx,
        out is Ready ==> ctx_after.observed == ctx.observed.push((seq, ctx.resolved[seq].1)),
        ctx_after.input == ctx.input,
        ctx_after.seed == ctx.seed,
        ctx_after.draws == ctx.draws,
        ctx_after.resolved == ctx.resolved,
        ctx_after.markers == ctx.markers,
        ctx_after.commands == ctx.commands,
        ctx_after.recorded_command_count == ctx.recorded_command_count,
        ctx_after.lines == ctx.lines,
        ctx_after.muted == ctx.muted,
        ctx_after.old_lines == ctx.old_lines,
        ctx_after.tasks == ctx.tasks,
{
}

} // verus!
