//! What the order saga does, from end to end.

use vstd::prelude::*;
use vstd::string::*;

use crate::command::CommandView;
use crate::coroutine::{Coroutine, Observe, Poll, Workflow};
use crate::history::{OutcomeView, Payload};
use crate::saga::{
    checksum_of, reference_number, saga_polls, saga_step, OrderSaga, SagaRun, SagaView,
};
use crate::text::Text;
use crate::workflow::CtxView;

verus! {

/// The activity that the saga asks for first.
pub open spec fn first_activity(edited: bool) -> Text {
    if edited {
        "reserve_inventory"@
    } else {
        "charge_card"@
    }
}

/// The activity that the saga asks for second.
pub open spec fn second_activity(edited: bool) -> Text {
    if edited {
        "charge_card"@
    } else {
        "reserve_inventory"@
    }
}

/// What the saga asks for in the course of an order: both activities with the order,
/// half a second to pack, and shipping with order, payment and reservation, in that
/// order, whichever came first.
pub open spec fn whole_order(edited: bool, order: Text, first: Text, second: Text) -> Seq<
    CommandView,
> {
    let (payment, reservation) = if edited {
        (second, first)
    } else {
        (first, second)
    };
    seq![
        CommandView::ScheduleActivity {
            seq: 0,
            activity_type: first_activity(edited),
            input: order,
        },
        CommandView::ScheduleActivity {
            seq: 1,
            activity_type: second_activity(edited),
            input: order,
        },
        CommandView::StartTimer { seq: 2, fire_after_ms: 500 },
        CommandView::ScheduleActivity {
            seq: 3,
            activity_type: "ship_order"@,
            input: order + "|"@ + payment + "|"@ + reservation,
        },
    ]
}

/// The result of command `seq` is a completion with the given payload.
pub open spec fn came_back<T>(ctx: CtxView<T>, seq: u32, payload: Text) -> bool {
    ctx.resolved.contains_key(seq) && ctx.resolved[seq].0 == OutcomeView::Completed(payload)
}

/// The result of command `seq` is a failure for the given reason.
pub open spec fn went_wrong<T>(ctx: CtxView<T>, seq: u32, reason: Text) -> bool {
    ctx.resolved.contains_key(seq) && ctx.resolved[seq].0 == OutcomeView::Failed(reason)
}

/// An order goes through: with all results there, one poll of a new saga asks for
/// everything in turn and returns the order and its tracking number. With a result
/// missing it parks behind the command that waits for it, and asks for no more.
pub proof fn law_an_order_goes_through<T>(
    edited: bool,
    ctx: CtxView<T>,
    first: Text,
    second: Text,
    tracking: Text,
)
    requires
        ctx.commands.len() == 0,
    ensures
        ({
            let r = saga_polls(edited, SagaView::New, ctx);
            let all = whole_order(edited, ctx.input, first, second);
            let through = came_back(ctx, 0, first) && came_back(ctx, 1, second)
                && ctx.resolved.contains_key(2) && came_back(ctx, 3, tracking);
            &&& through ==> {
                &&& r.ctx.commands == all
                &&& r.out == Some(
                    Poll::Ready(
                        Ok::<Text, Text>("shipped "@ + ctx.input + " tracking="@ + tracking),
                    ),
                )
            }
            &&& !ctx.resolved.contains_key(0) ==> r.ctx.commands == all.take(1) && r.out == Some(
                Poll::<Result<Text, Text>>::Pending,
            )
            &&& came_back(ctx, 0, first) && !ctx.resolved.contains_key(1) ==> r.ctx.commands
                == all.take(2) && r.out == Some(Poll::<Result<Text, Text>>::Pending)
            &&& came_back(ctx, 0, first) && came_back(ctx, 1, second)
                && !ctx.resolved.contains_key(2) ==> r.ctx.commands == all.take(3) && r.out
                == Some(Poll::<Result<Text, Text>>::Pending)
            &&& came_back(ctx, 0, first) && came_back(ctx, 1, second)
                && ctx.resolved.contains_key(2) && !ctx.resolved.contains_key(3)
                ==> r.ctx.commands == all && r.out == Some(Poll::<Result<Text, Text>>::Pending)
        }),
{
    reveal_with_fuel(saga_polls, 6);
    let r = saga_polls(edited, SagaView::New, ctx);
    let all = whole_order(edited, ctx.input, first, second);
    if !ctx.resolved.contains_key(0) {
        assert(r.ctx.commands =~= all.take(1));
    } else if came_back(ctx, 0, first) && !ctx.resolved.contains_key(1) {
        assert(r.ctx.commands =~= all.take(2));
    } else if came_back(ctx, 0, first) && came_back(ctx, 1, second) {
        if !ctx.resolved.contains_key(2) {
            assert(r.ctx.commands =~= all.take(3));
        } else if !ctx.resolved.contains_key(3) || came_back(ctx, 3, tracking) {
            assert(r.ctx.commands =~= all);
        }
    }
}

/// An order that goes wrong ends there: where an activity failed, the saga asks for no
/// more and returns the reason in full.
pub proof fn law_an_order_that_goes_wrong_ends_there<T>(
    edited: bool,
    ctx: CtxView<T>,
    first: Text,
    second: Text,
    reason: Text,
)
    requires
        ctx.commands.len() == 0,
    ensures
        ({
            let r = saga_polls(edited, SagaView::New, ctx);
            let all = whole_order(edited, ctx.input, first, second);
            let wrong = Some(Poll::Ready(Err::<Text, Text>("activity failed: "@ + reason)));
            &&& went_wrong(ctx, 0, reason) ==> r.ctx.commands == all.take(1) && r.out == wrong
            &&& came_back(ctx, 0, first) && went_wrong(ctx, 1, reason) ==> r.ctx.commands
                == all.take(2) && r.out == wrong
            &&& came_back(ctx, 0, first) && came_back(ctx, 1, second)
                && ctx.resolved.contains_key(2) && went_wrong(ctx, 3, reason) ==> r.ctx.commands
                == all && r.out == wrong
        }),
{
    reveal_with_fuel(saga_polls, 6);
    let r = saga_polls(edited, SagaView::New, ctx);
    let all = whole_order(edited, ctx.input, first, second);
    if went_wrong(ctx, 0, reason) {
        assert(r.ctx.commands =~= all.take(1));
    } else if came_back(ctx, 0, first) && went_wrong(ctx, 1, reason) {
        assert(r.ctx.commands =~= all.take(2));
    } else if came_back(ctx, 0, first) && came_back(ctx, 1, second) && ctx.resolved.contains_key(
        2,
    ) && went_wrong(ctx, 3, reason) {
        assert(r.ctx.commands =~= all);
    }
}

/// The saga tells its story line by line, with every payload in full; the edited one
/// tells nothing.
pub proof fn law_an_order_is_told_line_by_line<T>(
    ctx: CtxView<T>,
    first: Text,
    second: Text,
    tracking: Text,
)
    requires
        ctx.commands.len() == 0,
        came_back(ctx, 0, first),
        came_back(ctx, 1, second),
        ctx.resolved.contains_key(2),
        came_back(ctx, 3, tracking),
    ensures
        saga_polls(false, SagaView::New, ctx).ctx.lines == ctx.lines + seq![
            "saga started for "@ + ctx.input,
            "card charged: "@ + first,
            "inventory reserved: "@ + second,
            "packing window elapsed"@,
        ],
        saga_polls(true, SagaView::New, ctx).ctx.lines == ctx.lines,
{
    reveal_with_fuel(saga_polls, 6);
    assert(saga_polls(false, SagaView::New, ctx).ctx.lines =~= ctx.lines + seq![
        "saga started for "@ + ctx.input,
        "card charged: "@ + first,
        "inventory reserved: "@ + second,
        "packing window elapsed"@,
    ]);
}

/// A saga goes on where it was parked: polled in the state that it stopped in, with what
/// it issued, it does what a saga polled from the start would have gone on to do.
pub proof fn law_a_saga_goes_on_where_it_was<T>(edited: bool, state: SagaView, ctx: CtxView<T>)
    ensures
        ({
            let s = saga_step(edited, state, ctx);
            s.out is None ==> saga_polls(edited, state, ctx) == saga_polls(
                edited,
                s.state,
                s.ctx,
            )
        }),
        saga_polls(edited, SagaView::Closed, ctx).out == Some(Poll::<Result<Text, Text>>::Pending),
        saga_polls(edited, SagaView::Closed, ctx).ctx == ctx,
        saga_polls(edited, state, ctx).out is Some,
    decreases state.ahead(),
{
    let s = saga_step(edited, state, ctx);
    if s.out is None {
        law_a_saga_goes_on_where_it_was(edited, s.state, s.ctx);
    }
}

/// The step from each parked state: with the result there, the saga observes it and asks
/// for the next thing under the next number, or returns; without it, nothing changes.
pub proof fn law_a_parked_saga_waits_for_one_result<T>(
    edited: bool,
    ctx: CtxView<T>,
    first: Text,
    second: Text,
    seq: u32,
)
    requires
        !ctx.resolved.contains_key(seq),
    ensures
        saga_polls(edited, SagaView::First { seq }, ctx).ctx == ctx,
        saga_polls(edited, SagaView::First { seq }, ctx).state == (SagaView::First { seq }),
        saga_polls(edited, SagaView::Second { first, seq }, ctx).ctx == ctx,
        saga_polls(edited, SagaView::Second { first, seq }, ctx).state == (SagaView::Second {
            first,
            seq,
        }),
        saga_polls(edited, SagaView::Packing { first, second, seq }, ctx).ctx == ctx,
        saga_polls(edited, SagaView::Packing { first, second, seq }, ctx).state == (
        SagaView::Packing { first, second, seq }),
        saga_polls(edited, SagaView::Shipping { seq }, ctx).ctx == ctx,
        saga_polls(edited, SagaView::Shipping { seq }, ctx).state == (SagaView::Shipping { seq }),
{
}

/// A reference number has five digits at most, and comes from every byte of the text: one
/// byte more multiplies the checksum by a fixed number and adds the byte, modulo two to
/// the 32.
pub proof fn law_a_reference_number_takes_in_every_byte(s: Text, bytes: Seq<u8>, b: u8)
    ensures
        reference_number(s) < 100000,
        reference_number(s) == checksum_of(vstd::utf8::encode_utf8(s)) as nat % 100000,
        checksum_of(Seq::empty()) == 7,
        checksum_of(bytes.push(b)) == (checksum_of(bytes) * 31 + b) % 0x1_0000_0000,
{
    assert(bytes.push(b).drop_last() =~= bytes);
    let c: int = checksum_of(bytes) * 31;
    let m: int = 0x1_0000_0000;
    let x: int = c % m;
    vstd::arithmetic::div_mod::lemma_add_mod_noop(c, b as int, m);
    vstd::arithmetic::div_mod::lemma_small_mod(b as nat, m as nat);
    assert((c + b) % m == (x + b) % m);
    if x + b >= m {
        vstd::arithmetic::div_mod::lemma_fundamental_div_mod_converse(x + b, m, 1, x + b - m);
    } else {
        vstd::arithmetic::div_mod::lemma_small_mod((x + b) as nat, m as nat);
    }
}

/// A saga starts at its beginning and touches nothing; polling it goes by its version and
/// by where it is.
pub proof fn law_a_saga_starts_at_its_beginning<T: Observe>(
    saga: OrderSaga,
    ctx: CtxView<T::Obs>,
    root: (bool, SagaView),
    ctx_after: CtxView<T::Obs>,
    after: (bool, SagaView),
    out: Poll<Result<Text, Text>>,
)
    ensures
        <OrderSaga as Workflow<T, SagaRun>>::started(&saga, ctx, root, ctx_after) <==> root.0
            == saga.edited && root.1 is New && ctx_after == ctx,
        <SagaRun as Coroutine<T, Result<Payload, String>>>::polled(
            root,
            ctx,
            after,
            ctx_after,
            out,
        ) ==> {
            let r = saga_polls(root.0, root.1, ctx);
            after.0 == root.0 && after.1 == r.state && ctx_after == r.ctx && r.out == Some(out)
        },
{
}

} // verus!
