//! Code that does the same again.
//!
//! Workflow code need not be deterministic to be replayed: a side effect may give
//! anything the first time. What it needs is to be *faithful*: shown the same
//! results, and with its side effects frozen, it does the same again.

use vstd::prelude::*;

use crate::combinators::{
    as_poll, both_joined, branch_polled, branches_polled, joined, right_polled, Either, Join2,
    Join2View, JoinAll, Select2, Select2View,
};
use crate::command::CommandView;
use crate::coroutine::{Coroutine, Observe, Poll, Workflow};
use crate::history::{started, Payload, SeqNo};
use crate::laws::log::lemma_prefix_trans;
use crate::text::Text;
use crate::workflow::{ActivityFailure, ActivityFuture, CtxView, TimerFuture};

verus! {

/// Two contexts show the workflow the same, and it has done the same in them.
/// They may differ in what only a replay knows: the frozen markers, how many
/// commands the log already records, and which lines are old.
pub open spec fn alike<T>(a: CtxView<T>, b: CtxView<T>) -> bool {
    &&& a.input == b.input
    &&& a.seed == b.seed
    &&& a.draws == b.draws
    &&& a.resolved == b.resolved
    &&& a.observed == b.observed
    &&& a.commands == b.commands
    &&& a.lines == b.lines
    &&& a.tasks == b.tasks
    &&& a.progressed == b.progressed
}

/// From `a` to `b` the context has only grown: input, seed, markers and the count
/// of recorded commands stay; commands, lines, observations and draws are only
/// added.
pub open spec fn grows<T>(a: CtxView<T>, b: CtxView<T>) -> bool {
    &&& a.input == b.input
    &&& a.seed == b.seed
    &&& a.markers == b.markers
    &&& a.recorded_command_count == b.recorded_command_count
    &&& a.commands.is_prefix_of(b.commands)
    &&& a.lines.is_prefix_of(b.lines)
    &&& a.observed.is_prefix_of(b.observed)
    &&& a.draws <= b.draws
}

/// Nothing was delivered between `a` and `b`, and a line logged in between is old
/// only if the workflow was behind.
pub open spec fn undisturbed<T>(a: CtxView<T>, b: CtxView<T>) -> bool {
    &&& a.resolved == b.resolved
    &&& a.muted == b.muted
    &&& !a.is_behind() ==> b.old_lines == a.old_lines
    &&& a.old_lines == a.lines.len() && b.is_behind() ==> b.old_lines == b.lines.len()
}

/// The value that a command of this kind was given is among `markers`.
pub open spec fn is_frozen(c: CommandView, markers: Map<SeqNo, Text>) -> bool {
    match c {
        CommandView::RecordMarker { seq, value, .. } => markers.contains_key(seq) && markers[seq]
            == value,
        _ => true,
    }
}

/// The value of every side effect in `commands` is among `markers`.
pub open spec fn frozen(commands: Seq<CommandView>, markers: Map<SeqNo, Text>) -> bool {
    forall|i: int| 0 <= i < commands.len() ==> is_frozen(#[trigger] commands[i], markers)
}

/// Polling a coroutine of type `C` uses the context as its methods allow: it only
/// grows, and nothing is delivered.
pub open spec fn orderly<T: Observe, O: Observe, C: Coroutine<T, O>>() -> bool {
    forall|b: C::Obs, x: CtxView<T::Obs>, a: C::Obs, c: CtxView<T::Obs>, o: Poll<O::Obs>|
        #[trigger]
        C::polled(b, x, a, c, o) ==> grows(x, c) && undisturbed(x, c)
}

/// Polling a coroutine of type `C` is orderly, and polling it again in a context
/// that looks the same, with its side effects frozen, does the same.
pub open spec fn faithful<T: Observe, O: Observe, C: Coroutine<T, O>>() -> bool {
    &&& orderly::<T, O, C>()
    &&& forall|
        b: C::Obs,
        x1: CtxView<T::Obs>,
        a1: C::Obs,
        c1: CtxView<T::Obs>,
        o1: Poll<O::Obs>,
        x2: CtxView<T::Obs>,
        a2: C::Obs,
        c2: CtxView<T::Obs>,
        o2: Poll<O::Obs>,
    | #[trigger]
        C::polled(b, x1, a1, c1, o1) && #[trigger] C::polled(b, x2, a2, c2, o2) && alike(x1, x2)
            && frozen(c1.commands, x2.markers) ==> a1 == a2 && o1 == o2 && alike(c1, c2)
}

/// Starting the workflow `wf` is orderly.
pub open spec fn starts_orderly<T: Observe, R: Observe, W: Workflow<T, R>>(wf: W) -> bool {
    forall|x: CtxView<T::Obs>, r: R::Obs, c: CtxView<T::Obs>| #[trigger]
        wf.started(x, r, c) ==> grows(x, c) && undisturbed(x, c)
}

/// The code of the workflow `wf` is orderly: its start, its root and its detached
/// tasks.
pub open spec fn orderly_workflow<
    T: Coroutine<T, ()>,
    R: Coroutine<T, Result<Payload, String>>,
    W: Workflow<T, R>,
>(wf: W) -> bool {
    &&& orderly::<T, (), T>()
    &&& orderly::<T, Result<Payload, String>, R>()
    &&& starts_orderly::<T, R, W>(wf)
}

/// Starting the workflow `wf` is faithful.
pub open spec fn starts_faithfully<T: Observe, R: Observe, W: Workflow<T, R>>(wf: W) -> bool {
    &&& starts_orderly::<T, R, W>(wf)
    &&& forall|
        x1: CtxView<T::Obs>,
        r1: R::Obs,
        c1: CtxView<T::Obs>,
        x2: CtxView<T::Obs>,
        r2: R::Obs,
        c2: CtxView<T::Obs>,
    | #[trigger]
        wf.started(x1, r1, c1) && #[trigger] wf.started(x2, r2, c2) && alike(x1, x2) && frozen(
            c1.commands,
            x2.markers,
        ) ==> r1 == r2 && alike(c1, c2)
}

/// The code of the workflow `wf` is faithful: its start, its root and its
/// detached tasks.
pub open spec fn faithful_workflow<
    T: Coroutine<T, ()>,
    R: Coroutine<T, Result<Payload, String>>,
    W: Workflow<T, R>,
>(wf: W) -> bool {
    &&& faithful::<T, (), T>()
    &&& faithful::<T, Result<Payload, String>, R>()
    &&& starts_faithfully::<T, R, W>(wf)
}

pub(crate) proof fn lemma_grows_trans<T>(a: CtxView<T>, b: CtxView<T>, c: CtxView<T>)
    requires
        grows(a, b),
        grows(b, c),
    ensures
        grows(a, c),
{
    lemma_prefix_trans(a.commands, b.commands, c.commands);
    lemma_prefix_trans(a.lines, b.lines, c.lines);
    lemma_prefix_trans(a.observed, b.observed, c.observed);
}

pub(crate) proof fn lemma_grows_refl<T>(a: CtxView<T>)
    ensures
        grows(a, a),
{
    assert(a.commands.subrange(0, a.commands.len() as int) =~= a.commands);
    assert(a.lines.subrange(0, a.lines.len() as int) =~= a.lines);
    assert(a.observed.subrange(0, a.observed.len() as int) =~= a.observed);
}

pub(crate) proof fn lemma_frozen_before(
    a: Seq<CommandView>,
    b: Seq<CommandView>,
    markers: Map<SeqNo, Text>,
)
    requires
        frozen(b, markers),
        a.is_prefix_of(b),
    ensures
        frozen(a, markers),
{
    assert forall|i: int| 0 <= i < a.len() implies is_frozen(#[trigger] a[i], markers) by {
        assert(a[i] == b.subrange(0, a.len() as int)[i]);
        assert(is_frozen(b[i], markers));
    }
}

/// Every method of the context keeps to the rules, so code that touches the
/// context through them alone is orderly.
pub proof fn law_the_context_only_grows<T>(
    x: CtxView<T>,
    c: CommandView,
    seq: SeqNo,
    task: T,
    msg: Text,
)
    ensures
        grows(x, x) && undisturbed(x, x),
        grows(x, x.issued(c)) && undisturbed(x, x.issued(c)),
        grows(x, x.saw(seq)) && undisturbed(x, x.saw(seq)),
        grows(x, x.spawned(task)) && undisturbed(x, x.spawned(task)),
        grows(x, x.logged(msg)) && undisturbed(x, x.logged(msg)),
        grows(x, x.drawn()) && undisturbed(x, x.drawn()),
{
    lemma_grows_refl(x);
    assert(x.issued(c).commands.subrange(0, x.commands.len() as int) =~= x.commands);
    assert(x.saw(seq).observed.subrange(0, x.observed.len() as int) =~= x.observed);
    assert(x.logged(msg).lines.subrange(0, x.lines.len() as int) =~= x.lines);
}

/// Awaiting an activity or a timer is orderly.
pub proof fn law_futures_are_orderly<T: Observe>()
    ensures
        orderly::<T, Result<Payload, ActivityFailure>, ActivityFuture>(),
        orderly::<T, (), TimerFuture>(),
{
    assert forall|x: CtxView<T::Obs>| #[trigger] grows(x, x) by {
        lemma_grows_refl(x);
    }
    assert forall|x: CtxView<T::Obs>, q: SeqNo| #[trigger] grows(x, x.saw(q)) by {
        lemma_grows_refl(x);
        assert(x.saw(q).observed.subrange(0, x.observed.len() as int) =~= x.observed);
    }
}

/// Awaiting an activity or a timer is faithful.
pub proof fn law_futures_are_faithful<T: Observe>()
    ensures
        faithful::<T, Result<Payload, ActivityFailure>, ActivityFuture>(),
        faithful::<T, (), TimerFuture>(),
{
    law_futures_are_orderly::<T>();
}

proof fn lemma_branch_follows<T: Observe, O: Observe, A: Coroutine<T, O>>(
    b: (A::Obs, Option<O::Obs>),
    x1: CtxView<T::Obs>,
    a1: (A::Obs, Option<O::Obs>),
    c1: CtxView<T::Obs>,
    x2: CtxView<T::Obs>,
    a2: (A::Obs, Option<O::Obs>),
    c2: CtxView<T::Obs>,
)
    requires
        faithful::<T, O, A>(),
        branch_polled::<T, O, A>(b, x1, a1, c1),
        branch_polled::<T, O, A>(b, x2, a2, c2),
        alike(x1, x2),
        frozen(c1.commands, x2.markers),
    ensures
        a1 == a2,
        alike(c1, c2),
{
    if !(b.1 is Some) {
        assert(as_poll(a1.1) == as_poll(a2.1));
    }
}

proof fn lemma_branch_grows<T: Observe, O: Observe, A: Coroutine<T, O>>(
    b: (A::Obs, Option<O::Obs>),
    x: CtxView<T::Obs>,
    a: (A::Obs, Option<O::Obs>),
    c: CtxView<T::Obs>,
)
    requires
        orderly::<T, O, A>(),
        branch_polled::<T, O, A>(b, x, a, c),
    ensures
        grows(x, c),
        undisturbed(x, c),
{
    lemma_grows_refl(x);
}

/// Waiting for both of two orderly coroutines is orderly.
pub proof fn law_join2_is_orderly<
    T: Observe,
    OA: Observe,
    OB: Observe,
    A: Coroutine<T, OA>,
    B: Coroutine<T, OB>,
>()
    requires
        orderly::<T, OA, A>(),
        orderly::<T, OB, B>(),
    ensures
        orderly::<T, (OA, OB), Join2<A, B, OA, OB>>(),
{
    assert forall|
        b: Join2View<A::Obs, B::Obs, OA::Obs, OB::Obs>,
        x: CtxView<T::Obs>,
        a: Join2View<A::Obs, B::Obs, OA::Obs, OB::Obs>,
        c: CtxView<T::Obs>,
        o: Poll<(OA::Obs, OB::Obs)>,
    | #[trigger]
        <Join2<A, B, OA, OB> as Coroutine<T, (OA, OB)>>::polled(b, x, a, c, o) implies grows(
        x,
        c,
    ) && undisturbed(x, c) by {
        let (l, m, r) = lemma_both_branches::<T, OA, OB, A, B>(b, x, a, c, o);
        lemma_branch_grows::<T, OA, A>(b.left, x, l, m);
        lemma_branch_grows::<T, OB, B>(b.right, m, r, c);
        lemma_grows_trans(x, m, c);
    }
}

/// Waiting for both of two faithful coroutines is faithful.
pub proof fn law_join2_is_faithful<
    T: Observe,
    OA: Observe,
    OB: Observe,
    A: Coroutine<T, OA>,
    B: Coroutine<T, OB>,
>()
    requires
        faithful::<T, OA, A>(),
        faithful::<T, OB, B>(),
    ensures
        faithful::<T, (OA, OB), Join2<A, B, OA, OB>>(),
{
    law_join2_is_orderly::<T, OA, OB, A, B>();
    assert forall|
        b: Join2View<A::Obs, B::Obs, OA::Obs, OB::Obs>,
        x1: CtxView<T::Obs>,
        a1: Join2View<A::Obs, B::Obs, OA::Obs, OB::Obs>,
        c1: CtxView<T::Obs>,
        o1: Poll<(OA::Obs, OB::Obs)>,
        x2: CtxView<T::Obs>,
        a2: Join2View<A::Obs, B::Obs, OA::Obs, OB::Obs>,
        c2: CtxView<T::Obs>,
        o2: Poll<(OA::Obs, OB::Obs)>,
    |
        (#[trigger] <Join2<A, B, OA, OB> as Coroutine<T, (OA, OB)>>::polled(b, x1, a1, c1, o1)
            && #[trigger] <Join2<A, B, OA, OB> as Coroutine<T, (OA, OB)>>::polled(
            b,
            x2,
            a2,
            c2,
            o2,
        ) && alike(x1, x2) && frozen(c1.commands, x2.markers)) implies a1 == a2 && o1 == o2
        && alike(c1, c2) by {
        let (l1, m1, r1) = lemma_both_branches::<T, OA, OB, A, B>(b, x1, a1, c1, o1);
        let (l2, m2, r2) = lemma_both_branches::<T, OA, OB, A, B>(b, x2, a2, c2, o2);
        lemma_branch_grows::<T, OB, B>(b.right, m1, r1, c1);
        lemma_branch_grows::<T, OA, A>(b.left, x2, l2, m2);
        lemma_frozen_before(m1.commands, c1.commands, x2.markers);
        lemma_branch_follows::<T, OA, A>(b.left, x1, l1, m1, x2, l2, m2);
        lemma_branch_follows::<T, OB, B>(b.right, m1, r1, c1, m2, r2, c2);
    }
}

proof fn lemma_both_branches<
    T: Observe,
    OA: Observe,
    OB: Observe,
    A: Coroutine<T, OA>,
    B: Coroutine<T, OB>,
>(
    b: Join2View<A::Obs, B::Obs, OA::Obs, OB::Obs>,
    x: CtxView<T::Obs>,
    a: Join2View<A::Obs, B::Obs, OA::Obs, OB::Obs>,
    c: CtxView<T::Obs>,
    o: Poll<(OA::Obs, OB::Obs)>,
) -> (r: ((A::Obs, Option<OA::Obs>), CtxView<T::Obs>, (B::Obs, Option<OB::Obs>)))
    requires
        <Join2<A, B, OA, OB> as Coroutine<T, (OA, OB)>>::polled(b, x, a, c, o),
    ensures
        branch_polled::<T, OA, A>(b.left, x, r.0, r.1),
        branch_polled::<T, OB, B>(b.right, r.1, r.2, c),
        both_joined(r.0, r.2, a, o),
{
    choose|
        l: (A::Obs, Option<OA::Obs>),
        m: CtxView<T::Obs>,
        r: (B::Obs, Option<OB::Obs>),
    | #[trigger]
        branch_polled::<T, OA, A>(b.left, x, l, m) && #[trigger] branch_polled::<T, OB, B>(
            b.right,
            m,
            r,
            c,
        ) && both_joined(l, r, a, o)
}

/// What the left branch of a race gave, and the context then.
proof fn lemma_race<
    T: Observe,
    OA: Observe,
    OB: Observe,
    A: Coroutine<T, OA>,
    B: Coroutine<T, OB>,
>(
    b: Select2View<A::Obs, B::Obs>,
    x: CtxView<T::Obs>,
    a: Select2View<A::Obs, B::Obs>,
    c: CtxView<T::Obs>,
    o: Poll<Either<OA::Obs, OB::Obs>>,
) -> (r: (Poll<OA::Obs>, CtxView<T::Obs>))
    requires
        <Select2<A, B> as Coroutine<T, Either<OA, OB>>>::polled(b, x, a, c, o),
    ensures
        A::polled(b.left, x, a.left, r.1, r.0),
        right_polled::<T, OA, OB, B>(r.0, b.right, r.1, a.right, c, o),
{
    choose|l: Poll<OA::Obs>, m: CtxView<T::Obs>|
        {
            &&& #[trigger] A::polled(b.left, x, a.left, m, l)
            &&& right_polled::<T, OA, OB, B>(l, b.right, m, a.right, c, o)
        }
}

proof fn lemma_right_grows<T: Observe, OA: Observe, OB: Observe, B: Coroutine<T, OB>>(
    left: Poll<OA::Obs>,
    b: B::Obs,
    x: CtxView<T::Obs>,
    a: B::Obs,
    c: CtxView<T::Obs>,
    o: Poll<Either<OA::Obs, OB::Obs>>,
)
    requires
        orderly::<T, OB, B>(),
        right_polled::<T, OA, OB, B>(left, b, x, a, c, o),
    ensures
        grows(x, c),
        undisturbed(x, c),
{
    lemma_grows_refl(x);
}

/// Racing two orderly coroutines is orderly.
pub proof fn law_select2_is_orderly<
    T: Observe,
    OA: Observe,
    OB: Observe,
    A: Coroutine<T, OA>,
    B: Coroutine<T, OB>,
>()
    requires
        orderly::<T, OA, A>(),
        orderly::<T, OB, B>(),
    ensures
        orderly::<T, Either<OA, OB>, Select2<A, B>>(),
{
    assert forall|
        b: Select2View<A::Obs, B::Obs>,
        x: CtxView<T::Obs>,
        a: Select2View<A::Obs, B::Obs>,
        c: CtxView<T::Obs>,
        o: Poll<Either<OA::Obs, OB::Obs>>,
    | #[trigger]
        <Select2<A, B> as Coroutine<T, Either<OA, OB>>>::polled(b, x, a, c, o) implies grows(
        x,
        c,
    ) && undisturbed(x, c) by {
        let (l, m) = lemma_race::<T, OA, OB, A, B>(b, x, a, c, o);
        lemma_right_grows::<T, OA, OB, B>(l, b.right, m, a.right, c, o);
        lemma_grows_trans(x, m, c);
    }
}

/// Racing two faithful coroutines is faithful: the branch that won once wins
/// again.
pub proof fn law_select2_is_faithful<
    T: Observe,
    OA: Observe,
    OB: Observe,
    A: Coroutine<T, OA>,
    B: Coroutine<T, OB>,
>()
    requires
        faithful::<T, OA, A>(),
        faithful::<T, OB, B>(),
    ensures
        faithful::<T, Either<OA, OB>, Select2<A, B>>(),
{
    law_select2_is_orderly::<T, OA, OB, A, B>();
    assert forall|
        b: Select2View<A::Obs, B::Obs>,
        x1: CtxView<T::Obs>,
        a1: Select2View<A::Obs, B::Obs>,
        c1: CtxView<T::Obs>,
        o1: Poll<Either<OA::Obs, OB::Obs>>,
        x2: CtxView<T::Obs>,
        a2: Select2View<A::Obs, B::Obs>,
        c2: CtxView<T::Obs>,
        o2: Poll<Either<OA::Obs, OB::Obs>>,
    |
        (#[trigger] <Select2<A, B> as Coroutine<T, Either<OA, OB>>>::polled(b, x1, a1, c1, o1)
            && #[trigger] <Select2<A, B> as Coroutine<T, Either<OA, OB>>>::polled(
            b,
            x2,
            a2,
            c2,
            o2,
        ) && alike(x1, x2) && frozen(c1.commands, x2.markers)) implies a1 == a2 && o1 == o2
        && alike(c1, c2) by {
        let (l1, m1) = lemma_race::<T, OA, OB, A, B>(b, x1, a1, c1, o1);
        let (l2, m2) = lemma_race::<T, OA, OB, A, B>(b, x2, a2, c2, o2);
        lemma_right_grows::<T, OA, OB, B>(l1, b.right, m1, a1.right, c1, o1);
        lemma_frozen_before(m1.commands, c1.commands, x2.markers);
        assert(l1 == l2 && a1.left == a2.left && alike(m1, m2));
    }
}

/// The context before the last of the branches had its turn.
proof fn lemma_last_branch<T: Observe, O: Observe, A: Coroutine<T, O>>(
    b: Seq<(A::Obs, Option<O::Obs>)>,
    x: CtxView<T::Obs>,
    a: Seq<(A::Obs, Option<O::Obs>)>,
    c: CtxView<T::Obs>,
) -> (m: CtxView<T::Obs>)
    requires
        b.len() > 0,
        branches_polled::<T, O, A>(b, x, a, c),
    ensures
        a.len() > 0,
        branches_polled::<T, O, A>(b.drop_last(), x, a.drop_last(), m),
        branch_polled::<T, O, A>(b.last(), m, a.last(), c),
{
    choose|m: CtxView<T::Obs>|
        {
            &&& branches_polled::<T, O, A>(b.drop_last(), x, a.drop_last(), m)
            &&& #[trigger] branch_polled::<T, O, A>(b.last(), m, a.last(), c)
        }
}

proof fn lemma_branches_grow<T: Observe, O: Observe, A: Coroutine<T, O>>(
    b: Seq<(A::Obs, Option<O::Obs>)>,
    x: CtxView<T::Obs>,
    a: Seq<(A::Obs, Option<O::Obs>)>,
    c: CtxView<T::Obs>,
)
    requires
        orderly::<T, O, A>(),
        branches_polled::<T, O, A>(b, x, a, c),
    ensures
        grows(x, c),
        undisturbed(x, c),
    decreases b.len(),
{
    lemma_grows_refl(x);
    if b.len() > 0 {
        let m = lemma_last_branch::<T, O, A>(b, x, a, c);
        lemma_branches_grow::<T, O, A>(b.drop_last(), x, a.drop_last(), m);
        lemma_branch_grows::<T, O, A>(b.last(), m, a.last(), c);
        lemma_grows_trans(x, m, c);
    }
}

proof fn lemma_branches_follow<T: Observe, O: Observe, A: Coroutine<T, O>>(
    b: Seq<(A::Obs, Option<O::Obs>)>,
    x1: CtxView<T::Obs>,
    a1: Seq<(A::Obs, Option<O::Obs>)>,
    c1: CtxView<T::Obs>,
    x2: CtxView<T::Obs>,
    a2: Seq<(A::Obs, Option<O::Obs>)>,
    c2: CtxView<T::Obs>,
)
    requires
        faithful::<T, O, A>(),
        branches_polled::<T, O, A>(b, x1, a1, c1),
        branches_polled::<T, O, A>(b, x2, a2, c2),
        alike(x1, x2),
        frozen(c1.commands, x2.markers),
    ensures
        a1 == a2,
        alike(c1, c2),
    decreases b.len(),
{
    if b.len() == 0 {
        assert(a1 =~= a2);
    } else {
        let rest = b.drop_last();
        let m1 = lemma_last_branch::<T, O, A>(b, x1, a1, c1);
        let m2 = lemma_last_branch::<T, O, A>(b, x2, a2, c2);
        lemma_branch_grows::<T, O, A>(b.last(), m1, a1.last(), c1);
        lemma_branches_grow::<T, O, A>(rest, x2, a2.drop_last(), m2);
        lemma_frozen_before(m1.commands, c1.commands, x2.markers);
        lemma_branches_follow::<T, O, A>(
            rest,
            x1,
            a1.drop_last(),
            m1,
            x2,
            a2.drop_last(),
            m2,
        );
        lemma_branch_follows::<T, O, A>(b.last(), m1, a1.last(), c1, m2, a2.last(), c2);
        assert(a1 =~= a1.drop_last().push(a1.last()));
        assert(a2 =~= a2.drop_last().push(a2.last()));
    }
}

/// Waiting for any number of orderly coroutines is orderly.
pub proof fn law_join_all_is_orderly<T: Observe, O: Observe, A: Coroutine<T, O>>()
    requires
        orderly::<T, O, A>(),
    ensures
        orderly::<T, Vec<O>, JoinAll<A, O>>(),
{
    assert forall|
        b: Seq<(A::Obs, Option<O::Obs>)>,
        x: CtxView<T::Obs>,
        a: Seq<(A::Obs, Option<O::Obs>)>,
        c: CtxView<T::Obs>,
        o: Poll<Seq<O::Obs>>,
    | #[trigger]
        <JoinAll<A, O> as Coroutine<T, Vec<O>>>::polled(b, x, a, c, o) implies grows(x, c)
        && undisturbed(x, c) by {
        let m = choose|m: Seq<(A::Obs, Option<O::Obs>)>| #[trigger]
            branches_polled::<T, O, A>(b, x, m, c) && joined(m, a, o);
        lemma_branches_grow::<T, O, A>(b, x, m, c);
    }
}

/// Waiting for any number of faithful coroutines is faithful.
pub proof fn law_join_all_is_faithful<T: Observe, O: Observe, A: Coroutine<T, O>>()
    requires
        faithful::<T, O, A>(),
    ensures
        faithful::<T, Vec<O>, JoinAll<A, O>>(),
{
    law_join_all_is_orderly::<T, O, A>();
    assert forall|
        b: Seq<(A::Obs, Option<O::Obs>)>,
        x1: CtxView<T::Obs>,
        a1: Seq<(A::Obs, Option<O::Obs>)>,
        c1: CtxView<T::Obs>,
        o1: Poll<Seq<O::Obs>>,
        x2: CtxView<T::Obs>,
        a2: Seq<(A::Obs, Option<O::Obs>)>,
        c2: CtxView<T::Obs>,
        o2: Poll<Seq<O::Obs>>,
    |
        (#[trigger] <JoinAll<A, O> as Coroutine<T, Vec<O>>>::polled(b, x1, a1, c1, o1)
            && #[trigger] <JoinAll<A, O> as Coroutine<T, Vec<O>>>::polled(b, x2, a2, c2, o2)
            && alike(x1, x2) && frozen(c1.commands, x2.markers)) implies a1 == a2 && o1 == o2
        && alike(c1, c2) by {
        let m1 = choose|m: Seq<(A::Obs, Option<O::Obs>)>| #[trigger]
            branches_polled::<T, O, A>(b, x1, m, c1) && joined(m, a1, o1);
        let m2 = choose|m: Seq<(A::Obs, Option<O::Obs>)>| #[trigger]
            branches_polled::<T, O, A>(b, x2, m, c2) && joined(m, a2, o2);
        lemma_branches_follow::<T, O, A>(b, x1, m1, c1, x2, m2, c2);
    }
}

} // verus!
