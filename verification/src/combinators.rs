//! # Concurrency inside a workflow
//!
//! A composed coroutine is a tree, and one poll of the root drives the whole
//! tree in a single, deterministic pass. Detached tasks need a scheduler on top:
//! that is [`crate::workflow::WfContext::spawn`] and the loop of the driver.
//!
//! One rule holds for all combinators: **the poll order is fixed**, left to
//! right.

use vstd::prelude::*;

use crate::coroutine::{Coroutine, Observe, Poll};
use crate::workflow::{CtxView, WfContext};

verus! {

/// One of two values.
#[derive(Debug, PartialEq, Eq)]
pub enum Either<A, B> {
    Left(A),
    Right(B),
}

impl<A: Clone, B: Clone> Clone for Either<A, B> {
    fn clone(&self) -> (r: Either<A, B>)
        ensures
            match (*self, r) {
                (Either::Left(a), Either::Left(c)) => cloned(a, c),
                (Either::Right(b), Either::Right(c)) => cloned(b, c),
                _ => false,
            },
    {
        match self {
            Either::Left(a) => Either::Left(a.clone()),
            Either::Right(b) => Either::Right(b.clone()),
        }
    }
}

impl<A: Observe, B: Observe> Observe for Either<A, B> {
    type Obs = Either<A::Obs, B::Obs>;

    open spec fn observed(&self) -> Either<A::Obs, B::Obs> {
        match self {
            Either::Left(a) => Either::Left(a.observed()),
            Either::Right(b) => Either::Right(b.observed()),
        }
    }
}

/// The poll result that leaves `got` behind.
pub open spec fn as_poll<O>(got: Option<O>) -> Poll<O> {
    match got {
        Some(o) => Poll::Ready(o),
        None => Poll::Pending,
    }
}

/// One branch of a join gets its turn: it is polled, unless its output is
/// already there.
pub open spec fn branch_polled<T: Observe, O: Observe, A: Coroutine<T, O>>(
    before: (A::Obs, Option<O::Obs>),
    ctx: CtxView<T::Obs>,
    after: (A::Obs, Option<O::Obs>),
    ctx_after: CtxView<T::Obs>,
) -> bool {
    if before.1 is Some {
        after == before && ctx_after == ctx
    } else {
        A::polled(before.0, ctx, after.0, ctx_after, as_poll(after.1))
    }
}

/// Gives one branch of a join its turn.
fn poll_branch<T: Observe, O: Observe, A: Coroutine<T, O>>(
    branch: &mut (A, Option<O>),
    ctx: &mut WfContext<T>,
)
    ensures
        branch_polled::<T, O, A>(
            old(branch).observed(),
            old(ctx)@,
            final(branch).observed(),
            final(ctx)@,
        ),
{
    if branch.1.is_none() {
        match branch.0.poll(ctx) {
            Poll::Ready(v) => {
                branch.1 = Some(v);
            },
            Poll::Pending => {},
        }
    }
}

/// Both branches of a join, each with its output once it is there.
pub struct Join2<A, B, OA, OB> {
    left: (A, Option<OA>),
    right: (B, Option<OB>),
}

/// The mathematical content of a [`Join2`].
pub struct Join2View<A, B, OA, OB> {
    pub left: (A, Option<OA>),
    pub right: (B, Option<OB>),
}

impl<A: Observe, B: Observe, OA: Observe, OB: Observe> Observe for Join2<A, B, OA, OB> {
    type Obs = Join2View<A::Obs, B::Obs, OA::Obs, OB::Obs>;

    closed spec fn observed(&self) -> Join2View<A::Obs, B::Obs, OA::Obs, OB::Obs> {
        Join2View { left: self.left.observed(), right: self.right.observed() }
    }
}

/// Waits for both.
pub fn join2<T: Observe, OA: Observe, OB: Observe, A: Coroutine<T, OA>, B: Coroutine<T, OB>>(
    a: A,
    b: B,
) -> (r: Join2<A, B, OA, OB>)
    ensures
        r.observed() == (Join2View {
            left: (a.observed(), None::<OA::Obs>),
            right: (b.observed(), None::<OB::Obs>),
        }),
{
    Join2 { left: (a, None), right: (b, None) }
}

/// What a join makes of its two branches once both have had their turns: the
/// outputs, if both are there.
pub open spec fn both_joined<A, B, OA, OB>(
    left: (A, Option<OA>),
    right: (B, Option<OB>),
    after: Join2View<A, B, OA, OB>,
    out: Poll<(OA, OB)>,
) -> bool {
    match (left.1, right.1) {
        (Some(x), Some(y)) => {
            &&& out == Poll::Ready((x, y))
            &&& after == (Join2View { left: (left.0, None::<OA>), right: (right.0, None::<OB>) })
        },
        _ => {
            &&& out == Poll::<(OA, OB)>::Pending
            &&& after == (Join2View { left, right })
        },
    }
}

impl<T: Observe, OA: Observe, OB: Observe, A: Coroutine<T, OA>, B: Coroutine<T, OB>> Coroutine<
    T,
    (OA, OB),
> for Join2<A, B, OA, OB> {
    /// Each branch that has no output yet is polled, the left one first. Once
    /// both outputs are there they are handed over together.
    open spec fn polled(
        before: Join2View<A::Obs, B::Obs, OA::Obs, OB::Obs>,
        ctx: CtxView<T::Obs>,
        after: Join2View<A::Obs, B::Obs, OA::Obs, OB::Obs>,
        ctx_after: CtxView<T::Obs>,
        out: Poll<(OA::Obs, OB::Obs)>,
    ) -> bool {
        exists|
            l: (A::Obs, Option<OA::Obs>),
            mid: CtxView<T::Obs>,
            r: (B::Obs, Option<OB::Obs>),
        |
            {
                &&& #[trigger] branch_polled::<T, OA, A>(before.left, ctx, l, mid)
                &&& #[trigger] branch_polled::<T, OB, B>(before.right, mid, r, ctx_after)
                &&& both_joined(l, r, after, out)
            }
    }

    fn poll(&mut self, ctx: &mut WfContext<T>) -> (out: Poll<(OA, OB)>) {
        poll_branch(&mut self.left, ctx);
        let ghost l = self.left.observed();
        let ghost mid = ctx@;
        poll_branch(&mut self.right, ctx);
        let ghost r = self.right.observed();
        proof {
            assert(branch_polled::<T, OA, A>(old(self).observed().left, old(ctx)@, l, mid));
            assert(branch_polled::<T, OB, B>(old(self).observed().right, mid, r, ctx@));
        }
        match (self.left.1.take(), self.right.1.take()) {
            (Some(x), Some(y)) => Poll::Ready((x, y)),
            (x, y) => {
                self.left.1 = x;
                self.right.1 = y;
                Poll::Pending
            },
        }
    }
}

/// Two branches that race.
pub struct Select2<A, B> {
    left: A,
    right: B,
}

/// The mathematical content of a [`Select2`].
pub struct Select2View<A, B> {
    pub left: A,
    pub right: B,
}

impl<A: Observe, B: Observe> Observe for Select2<A, B> {
    type Obs = Select2View<A::Obs, B::Obs>;

    closed spec fn observed(&self) -> Select2View<A::Obs, B::Obs> {
        Select2View { left: self.left.observed(), right: self.right.observed() }
    }
}

/// Takes whichever resolves first. Left is polled first, always.
///
/// That the same branch wins on replay does not rest on the bias: the driver
/// delivers recorded results one at a time in log order, so the branch that won
/// live is the only one resolved when the select is polled. The fixed bias keeps
/// the *tie* deterministic.
pub fn select2<A: Observe, B: Observe>(a: A, b: B) -> (r: Select2<A, B>)
    ensures
        r.observed() == (Select2View { left: a.observed(), right: b.observed() }),
{
    Select2 { left: a, right: b }
}

/// What a select gives when only the right branch counts.
pub open spec fn right_branch<OA, OB>(b: Poll<OB>) -> Poll<Either<OA, OB>> {
    match b {
        Poll::Ready(v) => Poll::Ready(Either::Right(v)),
        Poll::Pending => Poll::Pending,
    }
}

/// The right branch of a select gets its turn, unless the left one gave an
/// output.
pub open spec fn right_polled<T: Observe, OA: Observe, OB: Observe, B: Coroutine<T, OB>>(
    left: Poll<OA::Obs>,
    before: B::Obs,
    ctx: CtxView<T::Obs>,
    after: B::Obs,
    ctx_after: CtxView<T::Obs>,
    out: Poll<Either<OA::Obs, OB::Obs>>,
) -> bool {
    match left {
        Poll::Ready(v) => {
            &&& out == Poll::Ready(Either::<OA::Obs, OB::Obs>::Left(v))
            &&& after == before
            &&& ctx_after == ctx
        },
        Poll::Pending => exists|b: Poll<OB::Obs>|
            {
                &&& #[trigger] B::polled(before, ctx, after, ctx_after, b)
                &&& out == right_branch::<OA::Obs, OB::Obs>(b)
            },
    }
}

fn as_right_branch<OA: Observe, OB: Observe>(b: Poll<OB>) -> (r: Poll<Either<OA, OB>>)
    ensures
        r.observed() == right_branch::<OA::Obs, OB::Obs>(b.observed()),
{
    match b {
        Poll::Ready(v) => Poll::Ready(Either::Right(v)),
        Poll::Pending => Poll::Pending,
    }
}

impl<T: Observe, OA: Observe, OB: Observe, A: Coroutine<T, OA>, B: Coroutine<T, OB>> Coroutine<
    T,
    Either<OA, OB>,
> for Select2<A, B> {
    /// The left branch is polled. If it has no output, so is the right one.
    open spec fn polled(
        before: Select2View<A::Obs, B::Obs>,
        ctx: CtxView<T::Obs>,
        after: Select2View<A::Obs, B::Obs>,
        ctx_after: CtxView<T::Obs>,
        out: Poll<Either<OA::Obs, OB::Obs>>,
    ) -> bool {
        exists|a: Poll<OA::Obs>, mid: CtxView<T::Obs>|
            {
                &&& #[trigger] A::polled(before.left, ctx, after.left, mid, a)
                &&& right_polled::<T, OA, OB, B>(a, before.right, mid, after.right, ctx_after, out)
            }
    }

    fn poll(&mut self, ctx: &mut WfContext<T>) -> (out: Poll<Either<OA, OB>>) {
        let a = self.left.poll(ctx);
        let ghost mid = ctx@;
        proof {
            assert(A::polled(
                old(self).observed().left,
                old(ctx)@,
                self.observed().left,
                mid,
                a.observed(),
            ));
        }
        match a {
            Poll::Ready(v) => Poll::Ready(Either::Left(v)),
            Poll::Pending => {
                let b = self.right.poll(ctx);
                let out = as_right_branch(b);
                proof {
                    assert(A::polled(
                        old(self).observed().left,
                        old(ctx)@,
                        self.observed().left,
                        mid,
                        a.observed(),
                    ));
                    assert(right_polled::<T, OA, OB, B>(
                        a.observed(),
                        old(self).observed().right,
                        mid,
                        self.observed().right,
                        ctx@,
                        out.observed(),
                    ));
                }
                out
            },
        }
    }
}

/// Any number of branches, each with its output once it is there.
pub struct JoinAll<A, O> {
    branches: Vec<(A, Option<O>)>,
}

impl<A: Observe, O: Observe> Observe for JoinAll<A, O> {
    type Obs = Seq<(A::Obs, Option<O::Obs>)>;

    closed spec fn observed(&self) -> Seq<(A::Obs, Option<O::Obs>)> {
        self.branches.observed()
    }
}

/// Waits for all of them; the outputs come in the order of the inputs.
pub fn join_all<T: Observe, O: Observe, A: Coroutine<T, O>>(futs: Vec<A>) -> (r: JoinAll<A, O>)
    ensures
        r.observed() == futs.observed().map_values(|a: A::Obs| (a, None::<O::Obs>)),
{
    let mut branches: Vec<(A, Option<O>)> = Vec::new();
    for a in it: futs
        invariant
            it.seq() == futs@,
            branches@.len() == it.index(),
            forall|i: int|
                0 <= i < branches@.len() ==> (#[trigger] branches@[i]).observed() == (
                    futs@[i].observed(),
                    None::<O::Obs>,
                ),
    {
        branches.push((a, None));
    }
    let r = JoinAll { branches };
    proof {
        assert(r.observed() =~= futs.observed().map_values(|a: A::Obs| (a, None::<O::Obs>)));
    }
    r
}

/// All branches get their turns, from the first to the last.
pub open spec fn branches_polled<T: Observe, O: Observe, A: Coroutine<T, O>>(
    before: Seq<(A::Obs, Option<O::Obs>)>,
    ctx: CtxView<T::Obs>,
    after: Seq<(A::Obs, Option<O::Obs>)>,
    ctx_after: CtxView<T::Obs>,
) -> bool
    decreases before.len(),
{
    &&& before.len() == after.len()
    &&& if before.len() == 0 {
        ctx_after == ctx
    } else {
        exists|mid: CtxView<T::Obs>|
            {
                &&& branches_polled::<T, O, A>(before.drop_last(), ctx, after.drop_last(), mid)
                &&& #[trigger] branch_polled::<T, O, A>(
                    before.last(),
                    mid,
                    after.last(),
                    ctx_after,
                )
            }
    }
}

/// Every branch has its output.
pub open spec fn all_there<A, O>(branches: Seq<(A, Option<O>)>) -> bool {
    forall|i: int| 0 <= i < branches.len() ==> (#[trigger] branches[i]).1 is Some
}

/// What a join makes of its branches once all have had their turns: the outputs,
/// in order, if all are there.
pub open spec fn joined<A, O>(
    branches: Seq<(A, Option<O>)>,
    after: Seq<(A, Option<O>)>,
    out: Poll<Seq<O>>,
) -> bool {
    if all_there(branches) {
        &&& out == Poll::Ready(branches.map_values(|b: (A, Option<O>)| b.1->0))
        &&& after == branches.map_values(|b: (A, Option<O>)| (b.0, None::<O>))
    } else {
        &&& out == Poll::<Seq<O>>::Pending
        &&& after == branches
    }
}

impl<T: Observe, O: Observe, A: Coroutine<T, O>> Coroutine<T, Vec<O>> for JoinAll<A, O> {
    /// Each branch that has no output yet is polled, from the first to the
    /// last. Once all outputs are there they are handed over, in the order of
    /// the branches.
    open spec fn polled(
        before: Seq<(A::Obs, Option<O::Obs>)>,
        ctx: CtxView<T::Obs>,
        after: Seq<(A::Obs, Option<O::Obs>)>,
        ctx_after: CtxView<T::Obs>,
        out: Poll<Seq<O::Obs>>,
    ) -> bool {
        exists|mid: Seq<(A::Obs, Option<O::Obs>)>|
            {
                &&& #[trigger] branches_polled::<T, O, A>(before, ctx, mid, ctx_after)
                &&& joined(mid, after, out)
            }
    }

    fn poll(&mut self, ctx: &mut WfContext<T>) -> (out: Poll<Vec<O>>) {
        let ghost before = self.observed();
        let ghost ctx0 = ctx@;
        let n: usize = self.branches.len();
        let mut i: usize = 0;
        while i < n
            invariant
                i <= n,
                n == self.branches@.len(),
                n == before.len(),
                n == self.observed().len(),
                branches_polled::<T, O, A>(
                    before.take(i as int),
                    ctx0,
                    self.observed().take(i as int),
                    ctx@,
                ),
                forall|j: int| i <= j < n ==> #[trigger] self.observed()[j] == before[j],
            decreases n - i,
        {
            let ghost step = self.observed();
            let ghost mid = ctx@;
            proof {
                assert(self.observed()[i as int] == before[i as int]);
            }
            poll_branch(&mut self.branches[i], ctx);
            proof {
                let now = self.observed();
                assert(forall|j: int| 0 <= j < n && j != i ==> #[trigger] now[j] == step[j]);
                assert(before.take(i + 1).drop_last() =~= before.take(i as int));
                assert(now.take(i + 1).drop_last() =~= step.take(i as int));
                assert(branch_polled::<T, O, A>(
                    before.take(i + 1).last(),
                    mid,
                    now.take(i + 1).last(),
                    ctx@,
                ));
            }
            i = i + 1;
        }
        proof {
            assert(before.take(i as int) =~= before);
            assert(self.observed().take(i as int) =~= self.observed());
        }
        let ghost mid = self.observed();
        let mut k: usize = 0;
        while k < n
            invariant
                k <= n,
                n == self.branches@.len(),
                mid == self.observed(),
                before == old(self).observed(),
                ctx0 == old(ctx)@,
                branches_polled::<T, O, A>(before, ctx0, mid, ctx@),
                forall|j: int| 0 <= j < k ==> (#[trigger] self.branches@[j]).1 is Some,
            decreases n - k,
        {
            if self.branches[k].1.is_none() {
                proof {
                    assert(!(mid[k as int].1 is Some));
                }
                return Poll::Pending;
            }
            k = k + 1;
        }
        proof {
            assert forall|j: int| 0 <= j < mid.len() implies (#[trigger] mid[j]).1 is Some by {
                assert(self.branches@[j].1 is Some);
            }
        }
        let mut out: Vec<O> = Vec::new();
        let mut m: usize = 0;
        while m < n
            invariant
                m <= n,
                n == self.branches@.len(),
                n == mid.len(),
                m == out@.len(),
                all_there(mid),
                forall|j: int| m <= j < n ==> #[trigger] self.observed()[j] == mid[j],
                forall|j: int|
                    0 <= j < m ==> #[trigger] self.observed()[j] == (mid[j].0, None::<O::Obs>),
                forall|j: int| 0 <= j < m ==> (#[trigger] out@[j]).observed() == mid[j].1->0,
            decreases n - m,
        {
            let ghost prev = self.observed();
            proof {
                assert(self.observed()[m as int] == mid[m as int]);
            }
            match self.branches[m].1.take() {
                Some(v) => {
                    out.push(v);
                },
                None => {},
            }
            proof {
                assert(forall|j: int|
                    0 <= j < n && j != m ==> #[trigger] self.observed()[j] == prev[j]);
            }
            m = m + 1;
        }
        proof {
            assert(out.observed() =~= mid.map_values(|b: (A::Obs, Option<O::Obs>)| b.1->0));
            assert(self.observed() =~= mid.map_values(
                |b: (A::Obs, Option<O::Obs>)| (b.0, None::<O::Obs>),
            ));
        }
        Poll::Ready(out)
    }
}

} // verus!
