//! # An order-fulfilment saga
//!
//! A workflow from end to end: charge a card, reserve the goods, wait for the
//! packing window, ship. Deterministic, no I/O, no clock, no randomness: every
//! line that looks like it does work asks for it and parks.
//!
//! The saga exists in two versions. In the *edited* one the first two steps are
//! swapped, which is what one gets by editing workflow code while executions are
//! in flight.

use vstd::prelude::*;
use vstd::string::*;

use crate::command::CommandView;
use crate::coroutine::{Coroutine, NoTask, Observe, Poll, Workflow};
use crate::history::{Payload, SeqNo};
use crate::laws::determinism::deterministic_workflow;
use crate::laws::faithfulness::{
    alike, faithful, faithful_workflow, frozen, grows, lemma_grows_refl, lemma_grows_trans,
    undisturbed,
};
use crate::text::{decimal, decimal_string, Text};
use crate::workflow::{
    activity_result, ActivityFailure, ActivityFuture, CtxView, TimerFuture, WfContext,
};

verus! {

/// How long an order is held for packing.
pub const PACKING_WINDOW_MS: u64 = 500;

/// The saga, as a workflow.
#[derive(Debug, Clone, Copy, PartialEq, Eq, Structural)]
pub struct OrderSaga {
    /// Reserve before charging, and log nothing.
    pub edited: bool,
}

/// Where a run of the saga is parked.
enum SagaState {
    /// Not begun.
    New,
    /// Waits for the first of charging and reserving.
    First { pending: ActivityFuture },
    /// Waits for the second.
    Second { first: Payload, pending: ActivityFuture },
    /// Waits for the packing window to end.
    Packing { first: Payload, second: Payload, window: TimerFuture },
    /// Waits for the tracking number.
    Shipping { pending: ActivityFuture },
    /// Through, one way or another.
    Closed,
}

/// The mathematical content of a [`SagaRun`]'s state.
pub enum SagaView {
    New,
    First { seq: SeqNo },
    Second { first: Text, seq: SeqNo },
    Packing { first: Text, second: Text, seq: SeqNo },
    Shipping { seq: SeqNo },
    Closed,
}

impl SagaView {
    /// How many steps are still ahead.
    pub open spec fn ahead(self) -> nat {
        match self {
            SagaView::New => 5,
            SagaView::First { .. } => 4,
            SagaView::Second { .. } => 3,
            SagaView::Packing { .. } => 2,
            SagaView::Shipping { .. } => 1,
            SagaView::Closed => 0,
        }
    }
}

impl View for SagaState {
    type V = SagaView;

    closed spec fn view(&self) -> SagaView {
        match self {
            SagaState::New => SagaView::New,
            SagaState::First { pending } => SagaView::First { seq: pending.observed() },
            SagaState::Second { first, pending } => SagaView::Second {
                first: first@,
                seq: pending.observed(),
            },
            SagaState::Packing { first, second, window } => SagaView::Packing {
                first: first@,
                second: second@,
                seq: window.observed(),
            },
            SagaState::Shipping { pending } => SagaView::Shipping { seq: pending.observed() },
            SagaState::Closed => SagaView::Closed,
        }
    }
}

/// One run of the saga.
pub struct SagaRun {
    edited: bool,
    state: SagaState,
}

impl Observe for SagaRun {
    type Obs = (bool, SagaView);

    closed spec fn observed(&self) -> (bool, SagaView) {
        (self.edited, self.state@)
    }
}

/// One step of the saga: the state and the context after it, and what the poll
/// gives, if it ends here.
pub struct SagaStep<T> {
    pub state: SagaView,
    pub ctx: CtxView<T>,
    pub out: Option<Poll<Result<Text, Text>>>,
}

/// What the edited saga does first, and the other one second.
pub open spec fn reserve() -> Text {
    "reserve_inventory"@
}

/// What the saga does first, and the edited one second.
pub open spec fn charge() -> Text {
    "charge_card"@
}

/// The saga logs, unless it is the edited one.
pub open spec fn noted<T>(edited: bool, ctx: CtxView<T>, msg: Text) -> CtxView<T> {
    if edited {
        ctx
    } else {
        ctx.logged(msg)
    }
}

/// The saga parks in `state`.
pub open spec fn parked<T>(state: SagaView, ctx: CtxView<T>) -> SagaStep<T> {
    SagaStep { state, ctx, out: Some(Poll::Pending) }
}

/// The saga is through.
pub open spec fn through<T>(ctx: CtxView<T>, result: Result<Text, Text>) -> SagaStep<T> {
    SagaStep { state: SagaView::Closed, ctx, out: Some(Poll::Ready(result)) }
}

/// The saga issues the command `c` and goes on to `state`. Where there is no
/// sequence number left, it fails.
pub open spec fn asks<T>(ctx: CtxView<T>, c: CommandView, state: SagaView) -> SagaStep<T> {
    if ctx.can_issue() {
        SagaStep { state, ctx: ctx.issued(c), out: None }
    } else {
        through(ctx, Err("out of sequence numbers"@))
    }
}

/// What shipping is told: order, payment and reservation.
pub open spec fn consignment(edited: bool, order: Text, first: Text, second: Text) -> Text {
    if edited {
        order + "|"@ + second + "|"@ + first
    } else {
        order + "|"@ + first + "|"@ + second
    }
}

/// The step that the saga takes from `state`.
pub open spec fn saga_step<T>(edited: bool, state: SagaView, ctx: CtxView<T>) -> SagaStep<T> {
    let order = ctx.input;
    match state {
        SagaView::New => {
            let c = noted(edited, ctx, "saga started for "@ + order);
            asks(
                c,
                CommandView::ScheduleActivity {
                    seq: c.next_seq(),
                    activity_type: if edited {
                        reserve()
                    } else {
                        charge()
                    },
                    input: order,
                },
                SagaView::First { seq: c.next_seq() },
            )
        },
        SagaView::First { seq } => if ctx.resolved.contains_key(seq) {
            let seen = ctx.saw(seq);
            match activity_result(ctx.resolved[seq].0) {
                Err(f) => through(seen, Err("activity failed: "@ + f)),
                Ok(first) => {
                    let c = noted(edited, seen, "card charged: "@ + first);
                    asks(
                        c,
                        CommandView::ScheduleActivity {
                            seq: c.next_seq(),
                            activity_type: if edited {
                                charge()
                            } else {
                                reserve()
                            },
                            input: order,
                        },
                        SagaView::Second { first, seq: c.next_seq() },
                    )
                },
            }
        } else {
            parked(state, ctx)
        },
        SagaView::Second { first, seq } => if ctx.resolved.contains_key(seq) {
            let seen = ctx.saw(seq);
            match activity_result(ctx.resolved[seq].0) {
                Err(f) => through(seen, Err("activity failed: "@ + f)),
                Ok(second) => {
                    let c = noted(edited, seen, "inventory reserved: "@ + second);
                    asks(
                        c,
                        CommandView::StartTimer {
                            seq: c.next_seq(),
                            fire_after_ms: PACKING_WINDOW_MS,
                        },
                        SagaView::Packing { first, second, seq: c.next_seq() },
                    )
                },
            }
        } else {
            parked(state, ctx)
        },
        SagaView::Packing { first, second, seq } => if ctx.resolved.contains_key(seq) {
            let seen = ctx.saw(seq);
            let c = noted(edited, seen, "packing window elapsed"@);
            asks(
                c,
                CommandView::ScheduleActivity {
                    seq: c.next_seq(),
                    activity_type: "ship_order"@,
                    input: consignment(edited, order, first, second),
                },
                SagaView::Shipping { seq: c.next_seq() },
            )
        } else {
            parked(state, ctx)
        },
        SagaView::Shipping { seq } => if ctx.resolved.contains_key(seq) {
            let seen = ctx.saw(seq);
            through(
                seen,
                match activity_result(ctx.resolved[seq].0) {
                    Err(f) => Err("activity failed: "@ + f),
                    Ok(tracking) => Ok("shipped "@ + order + " tracking="@ + tracking),
                },
            )
        } else {
            parked(state, ctx)
        },
        SagaView::Closed => parked(state, ctx),
    }
}

/// What one poll of the saga does: steps, until one parks or is the last.
pub open spec fn saga_polls<T>(edited: bool, state: SagaView, ctx: CtxView<T>) -> SagaStep<T>
    decreases state.ahead(),
{
    let s = saga_step(edited, state, ctx);
    if s.out is Some {
        s
    } else {
        saga_polls(edited, s.state, s.ctx)
    }
}

/// `a` and `b`, one after the other.
fn joined_text(a: &str, b: &str) -> (r: String)
    ensures
        r@ == a@ + b@,
{
    let mut s = a.to_owned();
    s.append(b);
    s
}

/// Logs, unless the saga is the edited one.
fn note<T: Observe>(edited: bool, ctx: &mut WfContext<T>, before: &str, after: &str)
    ensures
        final(ctx)@ == noted(edited, old(ctx)@, before@ + after@),
{
    if !edited {
        let msg = joined_text(before, after);
        ctx.log(msg.as_str());
    }
}

/// Asks for an activity, if there is a sequence number left.
fn ask<T: Observe>(ctx: &mut WfContext<T>, activity_type: &str, input: &str) -> (r: Option<
    ActivityFuture,
>)
    ensures
        match r {
            Some(pending) => {
                &&& old(ctx)@.can_issue()
                &&& pending.observed() == old(ctx)@.next_seq()
                &&& final(ctx)@ == old(ctx)@.issued(
                    CommandView::ScheduleActivity {
                        seq: old(ctx)@.next_seq(),
                        activity_type: activity_type@,
                        input: input@,
                    },
                )
            },
            None => !old(ctx)@.can_issue() && final(ctx)@ == old(ctx)@,
        },
{
    if ctx.commands_issued() < SeqNo::MAX as usize {
        Some(ctx.activity(activity_type, input))
    } else {
        None
    }
}

/// What the saga fails with where there is no sequence number left.
fn out_of_numbers() -> (r: Option<Poll<Result<Payload, String>>>)
    ensures
        r.observed() == Some(Poll::Ready(Err::<Text, Text>("out of sequence numbers"@))),
{
    Some(Poll::Ready(Err("out of sequence numbers".to_owned())))
}

/// What the saga fails with where an activity did.
fn activity_failed(failure: ActivityFailure) -> (r: Option<Poll<Result<Payload, String>>>)
    ensures
        r.observed() == Some(
            Poll::Ready(Err::<Text, Text>("activity failed: "@ + failure.observed())),
        ),
{
    Some(Poll::Ready(Err(failure.to_string())))
}

/// What shipping is told.
fn consignment_text(edited: bool, order: &str, first: &str, second: &str) -> (r: String)
    ensures
        r@ == consignment(edited, order@, first@, second@),
{
    let mut s = joined_text(order, "|");
    if edited {
        s.append(second);
        s.append("|");
        s.append(first);
    } else {
        s.append(first);
        s.append("|");
        s.append(second);
    }
    s
}

impl SagaRun {
    /// Takes one step. Returns what the poll gives, if it ends here.
    fn step<T: Observe>(&mut self, ctx: &mut WfContext<T>) -> (out: Option<
        Poll<Result<Payload, String>>,
    >)
        ensures
            ({
                let s = saga_step(old(self).observed().0, old(self).observed().1, old(ctx)@);
                &&& final(self).observed() == (old(self).observed().0, s.state)
                &&& final(ctx)@ == s.ctx
                &&& out.observed() == s.out
            }),
    {
        let edited: bool = self.edited;
        let order = ctx.input();
        let mut state = SagaState::Closed;
        std::mem::swap(&mut state, &mut self.state);
        match state {
            SagaState::New => {
                note(edited, ctx, "saga started for ", order.as_str());
                let first = if edited {
                    "reserve_inventory"
                } else {
                    "charge_card"
                };
                match ask(ctx, first, order.as_str()) {
                    Some(pending) => {
                        self.state = SagaState::First { pending };
                        None
                    },
                    None => out_of_numbers(),
                }
            },
            SagaState::First { mut pending } => match pending.poll(ctx) {
                Poll::Ready(Ok(first)) => {
                    note(edited, ctx, "card charged: ", first.as_str());
                    let second = if edited {
                        "charge_card"
                    } else {
                        "reserve_inventory"
                    };
                    match ask(ctx, second, order.as_str()) {
                        Some(pending) => {
                            self.state = SagaState::Second { first, pending };
                            None
                        },
                        None => out_of_numbers(),
                    }
                },
                Poll::Ready(Err(f)) => activity_failed(f),
                Poll::Pending => {
                    self.state = SagaState::First { pending };
                    Some(Poll::Pending)
                },
            },
            SagaState::Second { first, mut pending } => match pending.poll(ctx) {
                Poll::Ready(Ok(second)) => {
                    note(edited, ctx, "inventory reserved: ", second.as_str());
                    if ctx.commands_issued() < SeqNo::MAX as usize {
                        let window = ctx.timer(PACKING_WINDOW_MS);
                        self.state = SagaState::Packing { first, second, window };
                        None
                    } else {
                        out_of_numbers()
                    }
                },
                Poll::Ready(Err(f)) => activity_failed(f),
                Poll::Pending => {
                    self.state = SagaState::Second { first, pending };
                    Some(Poll::Pending)
                },
            },
            SagaState::Packing { first, second, mut window } => match window.poll(ctx) {
                Poll::Ready(_) => {
                    if !edited {
                        ctx.log("packing window elapsed");
                    }
                    let what = consignment_text(
                        edited,
                        order.as_str(),
                        first.as_str(),
                        second.as_str(),
                    );
                    match ask(ctx, "ship_order", what.as_str()) {
                        Some(pending) => {
                            self.state = SagaState::Shipping { pending };
                            None
                        },
                        None => out_of_numbers(),
                    }
                },
                Poll::Pending => {
                    self.state = SagaState::Packing { first, second, window };
                    Some(Poll::Pending)
                },
            },
            SagaState::Shipping { mut pending } => match pending.poll(ctx) {
                Poll::Ready(Ok(tracking)) => {
                    let mut s = joined_text("shipped ", order.as_str());
                    s.append(" tracking=");
                    s.append(tracking.as_str());
                    Some(Poll::Ready(Ok(s)))
                },
                Poll::Ready(Err(f)) => activity_failed(f),
                Poll::Pending => {
                    self.state = SagaState::Shipping { pending };
                    Some(Poll::Pending)
                },
            },
            SagaState::Closed => Some(Poll::Pending),
        }
    }
}

impl<T: Observe> Coroutine<T, Result<Payload, String>> for SagaRun {
    open spec fn polled(
        before: (bool, SagaView),
        ctx: CtxView<T::Obs>,
        after: (bool, SagaView),
        ctx_after: CtxView<T::Obs>,
        out: Poll<Result<Text, Text>>,
    ) -> bool {
        let s = saga_polls(before.0, before.1, ctx);
        &&& after == (before.0, s.state)
        &&& ctx_after == s.ctx
        &&& Some(out) == s.out
    }

    fn poll(&mut self, ctx: &mut WfContext<T>) -> (out: Poll<Result<Payload, String>>) {
        loop
            invariant
                self.observed().0 == old(self).observed().0,
                saga_polls(self.observed().0, self.observed().1, ctx@) == saga_polls(
                    old(self).observed().0,
                    old(self).observed().1,
                    old(ctx)@,
                ),
            decreases self.observed().1.ahead(),
        {
            match self.step(ctx) {
                Some(out) => {
                    return out;
                },
                None => {},
            }
        }
    }
}

impl<T: Observe> Workflow<T, SagaRun> for OrderSaga {
    /// Starting the saga touches nothing; it begins with the first poll.
    open spec fn started(
        &self,
        ctx: CtxView<T::Obs>,
        root: (bool, SagaView),
        ctx_after: CtxView<T::Obs>,
    ) -> bool {
        &&& root == (self.edited, SagaView::New)
        &&& ctx_after == ctx
    }

    fn start(&self, ctx: &mut WfContext<T>) -> (root: SagaRun) {
        SagaRun { edited: self.edited, state: SagaState::New }
    }
}

/// A checksum of a string of bytes.
pub open spec fn checksum_of(bytes: Seq<u8>) -> u32
    decreases bytes.len(),
{
    if bytes.len() == 0 {
        7
    } else {
        checksum_of(bytes.drop_last()).wrapping_mul(31).wrapping_add(bytes.last() as u32)
    }
}

/// The reference number that stands for `s`: five digits at most.
pub open spec fn reference_number(s: Text) -> u32 {
    checksum_of(vstd::utf8::encode_utf8(s)) % 100_000
}

/// Computes the reference number of `s`.
pub fn checksum(s: &str) -> (r: u32)
    ensures
        r == reference_number(s@),
{
    let bytes = s.as_bytes();
    let mut acc: u32 = 7;
    let mut i: usize = 0;
    while i < bytes.len()
        invariant
            i <= bytes.len(),
            acc == checksum_of(bytes@.take(i as int)),
        decreases bytes.len() - i,
    {
        acc = acc.wrapping_mul(31).wrapping_add(bytes[i] as u32);
        proof {
            assert(bytes@.take(i + 1).drop_last() =~= bytes@.take(i as int));
        }
        i = i + 1;
    }
    proof {
        assert(bytes@.take(i as int) =~= bytes@);
    }
    acc % 100_000
}

fn reference(prefix: &str, input: &Payload) -> (r: String)
    ensures
        r@ == prefix@ + decimal(reference_number(input@) as nat),
{
    let n: u32 = checksum(input.as_str());
    joined_text(prefix, decimal_string(n as u64).as_str())
}

/// The activity that charges a card. Gives the payment's number.
pub fn charge_card(order: Payload) -> (r: Result<Payload, String>)
    ensures
        r.observed() == Ok::<Text, Text>("pay-"@ + decimal(reference_number(order@) as nat)),
{
    Ok(reference("pay-", &order))
}

/// The activity that reserves the goods. Gives the reservation's number.
pub fn reserve_inventory(order: Payload) -> (r: Result<Payload, String>)
    ensures
        r.observed() == Ok::<Text, Text>("res-"@ + decimal(reference_number(order@) as nat)),
{
    Ok(reference("res-", &order))
}

/// The activity that ships. Gives the tracking number.
pub fn ship_order(consignment: Payload) -> (r: Result<Payload, String>)
    ensures
        r.observed() == Ok::<Text, Text>(
            "trk-"@ + decimal(reference_number(consignment@) as nat),
        ),
{
    Ok(reference("trk-", &consignment))
}

/// The saga's code is deterministic.
pub proof fn law_the_saga_is_deterministic(wf: OrderSaga)
    ensures
        deterministic_workflow::<NoTask, SagaRun, OrderSaga>(wf),
{
}

proof fn lemma_step_grows<T>(edited: bool, state: SagaView, x: CtxView<T>)
    ensures
        grows(x, saga_step(edited, state, x).ctx),
        undisturbed(x, saga_step(edited, state, x).ctx),
{
    let c = saga_step(edited, state, x).ctx;
    lemma_grows_refl(x);
    assert(c.commands.subrange(0, x.commands.len() as int) =~= x.commands);
    assert(c.lines.subrange(0, x.lines.len() as int) =~= x.lines);
    assert(c.observed.subrange(0, x.observed.len() as int) =~= x.observed);
}

proof fn lemma_saga_follows<T>(edited: bool, state: SagaView, a: CtxView<T>, b: CtxView<T>)
    requires
        alike(a, b),
    ensures
        grows(a, saga_polls(edited, state, a).ctx),
        undisturbed(a, saga_polls(edited, state, a).ctx),
        saga_polls(edited, state, a).state == saga_polls(edited, state, b).state,
        saga_polls(edited, state, a).out == saga_polls(edited, state, b).out,
        alike(saga_polls(edited, state, a).ctx, saga_polls(edited, state, b).ctx),
    decreases state.ahead(),
{
    let s = saga_step(edited, state, a);
    let t = saga_step(edited, state, b);
    lemma_step_grows(edited, state, a);
    assert(alike(s.ctx, t.ctx));
    if s.out is None {
        lemma_saga_follows(edited, s.state, s.ctx, t.ctx);
        lemma_grows_trans(a, s.ctx, saga_polls(edited, s.state, s.ctx).ctx);
    }
}

/// The saga's code is faithful, in both versions: the engine's recovery laws hold
/// of it.
pub proof fn law_the_saga_is_faithful(wf: OrderSaga)
    ensures
        faithful_workflow::<NoTask, SagaRun, OrderSaga>(wf),
{
    assert forall|x: CtxView<()>| #[trigger] grows(x, x) by {
        lemma_grows_refl(x);
    }
    assert(faithful::<NoTask, Result<Payload, String>, SagaRun>()) by {
        assert forall|
            b: (bool, SagaView),
            x: CtxView<()>,
            a: (bool, SagaView),
            c: CtxView<()>,
            o: Poll<Result<Text, Text>>,
        | #[trigger]
            <SagaRun as Coroutine<NoTask, Result<Payload, String>>>::polled(
                b,
                x,
                a,
                c,
                o,
            ) implies grows(x, c) && undisturbed(x, c) by {
            lemma_saga_follows(b.0, b.1, x, x);
        }
        assert forall|
            b: (bool, SagaView),
            x1: CtxView<()>,
            a1: (bool, SagaView),
            c1: CtxView<()>,
            o1: Poll<Result<Text, Text>>,
            x2: CtxView<()>,
            a2: (bool, SagaView),
            c2: CtxView<()>,
            o2: Poll<Result<Text, Text>>,
        |
            (#[trigger] <SagaRun as Coroutine<NoTask, Result<Payload, String>>>::polled(
                b,
                x1,
                a1,
                c1,
                o1,
            ) && #[trigger] <SagaRun as Coroutine<NoTask, Result<Payload, String>>>::polled(
                b,
                x2,
                a2,
                c2,
                o2,
            ) && alike(x1, x2) && frozen(c1.commands, x2.markers)) implies a1 == a2 && o1 == o2
            && alike(c1, c2) by {
            lemma_saga_follows(b.0, b.1, x1, x2);
        }
    }
}

} // verus!
